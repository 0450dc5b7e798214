//! Templates: `{{ slug }}`, `{{ port.<name> }}`, `{{ db.name }}`, `{{ main_worktree }}`,
//! `{{ host.public }}` and `{{ host.bind }}` in config values, and the env files they
//! are written into.

use vstd::prelude::*;
use crate::config::Secrets;
use crate::resolve::Resolved;
use crate::table::{sorted, table_map, table_find, lex_lt};
use crate::text::{
    chars_of, string_of, owned, push_text, decimal, decimal_chars, extend_chars, slice_chars, trim,
    trim_chars, starts_with, has_prefix, opt_text, split_lines, lines, char_rows, split_once,
    split_once_chars, trim_start, join, join_path,
};

verus! {

/// What templates can refer to.
#[derive(Debug)]
pub struct Context {
    pub slug: String,
    /// Port name to port, in name order.
    pub ports: Vec<(String, u16)>,
    pub db_name: Option<String>,
    pub main_worktree: String,
    /// What a browser is told to use: `localhost`, or the exposed host.
    pub public_host: String,
    /// Where services bind: `127.0.0.1`, or every interface when exposed.
    pub bind_host: String,
}

/// What templates can refer to, as characters and a map.
pub struct ContextView {
    pub slug: Seq<char>,
    pub ports: Map<Seq<char>, u16>,
    pub db_name: Option<Seq<char>>,
    pub main_worktree: Seq<char>,
    pub public_host: Seq<char>,
    pub bind_host: Seq<char>,
}

impl View for Context {
    type V = ContextView;

    open spec fn view(&self) -> ContextView {
        ContextView {
            slug: self.slug@,
            ports: table_map(self.ports@),
            db_name: opt_text(self.db_name),
            main_worktree: self.main_worktree@,
            public_host: self.public_host@,
            bind_host: self.bind_host@,
        }
    }
}

/// Why a template did not render.
#[derive(Debug)]
pub enum RenderError {
    /// A `{{` with no `}}` after it.
    Unterminated,
    /// A variable templates do not know.
    Unknown { name: String },
    /// `{{ port.<name> }}` for a name this repo does not declare.
    NoPort { name: String },
    /// `{{ db.name }}` before any resource has named the database.
    NoDatabase,
}

pub enum RenderErrorView {
    Unterminated,
    Unknown(Seq<char>),
    NoPort(Seq<char>),
    NoDatabase,
}

impl View for RenderError {
    type V = RenderErrorView;

    open spec fn view(&self) -> RenderErrorView {
        match self {
            RenderError::Unterminated => RenderErrorView::Unterminated,
            RenderError::Unknown { name } => RenderErrorView::Unknown(name@),
            RenderError::NoPort { name } => RenderErrorView::NoPort(name@),
            RenderError::NoDatabase => RenderErrorView::NoDatabase,
        }
    }
}

impl RenderError {
    pub open spec fn message_of(&self) -> Seq<char> {
        match self {
            RenderError::Unterminated => "a `{{` in a template has no closing `}}`"@,
            RenderError::Unknown { name } => "unknown template variable `"@ + name@ + "`; run `grove --llm` for the ones available"@,
            RenderError::NoPort { name } => "no port named `"@ + name@ + "` in [ports].names"@,
            RenderError::NoDatabase => "`{{ db.name }}` is used, but no [[resource]] declares a db_name"@,
        }
    }

    pub fn message(&self) -> (m: String)
        ensures
            m@ == self.message_of(),
    {
        match self {
            RenderError::Unterminated => owned("a `{{` in a template has no closing `}}`"),
            RenderError::Unknown { name } => {
                let mut m = owned("unknown template variable `");
                push_text(&mut m, name.as_str());
                push_text(&mut m, "`; run `grove --llm` for the ones available");
                m
            },
            RenderError::NoPort { name } => {
                let mut m = owned("no port named `");
                push_text(&mut m, name.as_str());
                push_text(&mut m, "` in [ports].names");
                m
            },
            RenderError::NoDatabase => owned("`{{ db.name }}` is used, but no [[resource]] declares a db_name"),
        }
    }
}

/// Where `pat` first occurs in `t` at or after `i`, or -1.
pub open spec fn first_from(t: Seq<char>, pat: Seq<char>, i: int) -> int
    decreases t.len() - i,
{
    if i < 0 || i + pat.len() > t.len() {
        -1
    } else if pat.len() == 0 || t.subrange(i, i + pat.len()) == pat {
        i
    } else {
        first_from(t, pat, i + 1)
    }
}

proof fn lemma_first_from(t: Seq<char>, pat: Seq<char>, i: int)
    requires
        0 <= i,
    ensures
        first_from(t, pat, i) == -1 || (i <= first_from(t, pat, i) && first_from(t, pat, i) + pat.len() <= t.len()),
    decreases t.len() - i,
{
    if i + pat.len() <= t.len() && pat.len() != 0 && t.subrange(i, i + pat.len()) != pat {
        lemma_first_from(t, pat, i + 1);
    }
}

pub open spec fn open_mark() -> Seq<char> { seq!['{', '{'] }

pub open spec fn close_mark() -> Seq<char> { seq!['}', '}'] }

/// The value a variable stands for, or why it has none.
pub open spec fn variable_value(name: Seq<char>, ctx: ContextView) -> Result<Seq<char>, RenderErrorView> {
    if name == "slug"@ {
        Ok(ctx.slug)
    } else if name == "main_worktree"@ {
        Ok(ctx.main_worktree)
    } else if name == "host.public"@ {
        Ok(ctx.public_host)
    } else if name == "host.bind"@ {
        Ok(ctx.bind_host)
    } else if name == "db.name"@ {
        match ctx.db_name {
            Some(d) => Ok(d),
            None => Err(RenderErrorView::NoDatabase),
        }
    } else if starts_with(name, "port."@) {
        let port_name = name.subrange(5, name.len() as int);
        if ctx.ports.contains_key(port_name) {
            Ok(decimal(ctx.ports[port_name] as nat))
        } else {
            Err(RenderErrorView::NoPort(port_name))
        }
    } else {
        Err(RenderErrorView::Unknown(name))
    }
}

/// The template `t` rendered: each `{{ name }}` replaced by the value of the trimmed
/// name, everything else kept as it is.
pub open spec fn rendered(t: Seq<char>, ctx: ContextView) -> Result<Seq<char>, RenderErrorView>
    decreases t.len(),
{
    let o = first_from(t, open_mark(), 0);
    if o < 0 || o + 2 > t.len() {
        Ok(t)
    } else {
        let rest = t.subrange(o + 2, t.len() as int);
        let c = first_from(rest, close_mark(), 0);
        if c < 0 || c + 2 > rest.len() {
            Err(RenderErrorView::Unterminated)
        } else {
            match variable_value(trim(rest.subrange(0, c)), ctx) {
                Err(e) => Err(e),
                Ok(v) => match rendered(rest.subrange(c + 2, rest.len() as int), ctx) {
                    Err(e) => Err(e),
                    Ok(after) => Ok(t.subrange(0, o) + v + after),
                },
            }
        }
    }
}

fn find_from(t: &Vec<char>, a: char, b: char, from: usize) -> (r: Option<usize>)
    requires
        from <= t.len(),
    ensures
        match r {
            Some(i) => first_from(t@.subrange(from as int, t@.len() as int), seq![a, b], 0) == i - from
                && from <= i && i + 2 <= t.len(),
            None => first_from(t@.subrange(from as int, t@.len() as int), seq![a, b], 0) == -1,
        },
{
    let ghost s = t@.subrange(from as int, t@.len() as int);
    let mut i: usize = from;
    while t.len() > 0 && i < t.len() - 1 && !(t[i] == a && t[i + 1] == b)
        invariant
            from <= i <= t.len(),
            s == t@.subrange(from as int, t@.len() as int),
            first_from(s, seq![a, b], 0) == first_from(s, seq![a, b], i - from),
        decreases t.len() - i,
    {
        assert(s.subrange(i - from, i - from + 2) =~= seq![t@[i as int], t@[i + 1]]);
        i += 1;
    }
    if t.len() > 0 && i < t.len() - 1 {
        assert(s.subrange(i - from, i - from + 2) =~= seq![a, b]);
        Some(i)
    } else {
        None
    }
}

fn variable_exec(name: &Vec<char>, ctx: &Context) -> (r: Result<Vec<char>, RenderError>)
    requires
        sorted(ctx.ports@),
    ensures
        match (r, variable_value(name@, ctx@)) {
            (Ok(v), Ok(w)) => v@ == w,
            (Err(e), Err(f)) => e@ == f,
            _ => false,
        },
{
    let n = string_of(name);
    if crate::table::compare_text(n.as_str(), "slug") == 0 {
        return Ok(chars_of(ctx.slug.as_str()));
    }
    if crate::table::compare_text(n.as_str(), "main_worktree") == 0 {
        return Ok(chars_of(ctx.main_worktree.as_str()));
    }
    if crate::table::compare_text(n.as_str(), "host.public") == 0 {
        return Ok(chars_of(ctx.public_host.as_str()));
    }
    if crate::table::compare_text(n.as_str(), "host.bind") == 0 {
        return Ok(chars_of(ctx.bind_host.as_str()));
    }
    if crate::table::compare_text(n.as_str(), "db.name") == 0 {
        return match &ctx.db_name {
            Some(d) => Ok(chars_of(d.as_str())),
            None => Err(RenderError::NoDatabase),
        };
    }
    let prefix = chars_of("port.");
    proof { reveal_strlit("port."); }
    if has_prefix(name, &prefix) {
        let port_name = slice_chars(name, 5, name.len());
        let pn = string_of(&port_name);
        return match table_find(&ctx.ports, pn.as_str()) {
            Some(i) => {
                proof { crate::table::lemma_value_at(ctx.ports@, i as int); }
                Ok(decimal_chars(ctx.ports[i].1 as u64))
            },
            None => Err(RenderError::NoPort { name: pn }),
        };
    }
    Err(RenderError::Unknown { name: n })
}

fn render_from(t: &Vec<char>, start: usize, ctx: &Context) -> (r: Result<Vec<char>, RenderError>)
    requires
        start <= t.len(),
        sorted(ctx.ports@),
    ensures
        match (r, rendered(t@.subrange(start as int, t@.len() as int), ctx@)) {
            (Ok(v), Ok(w)) => v@ == w,
            (Err(e), Err(f)) => e@ == f,
            _ => false,
        },
    decreases t.len() - start,
{
    let ghost s = t@.subrange(start as int, t@.len() as int);
    match find_from(t, '{', '{', start) {
        None => {
            assert(open_mark() =~= seq!['{', '{']);
            Ok(slice_chars(t, start, t.len()))
        },
        Some(o) => {
            assert(open_mark() =~= seq!['{', '{']);
            assert(close_mark() =~= seq!['}', '}']);
            let ghost rest = s.subrange(o - start + 2, s.len() as int);
            assert(rest =~= t@.subrange(o + 2, t@.len() as int));
            match find_from(t, '}', '}', o + 2) {
                None => Err(RenderError::Unterminated),
                Some(c) => {
                    let inner = slice_chars(t, o + 2, c);
                    assert(inner@ =~= rest.subrange(0, c - (o + 2)));
                    let name = trim_chars(&inner);
                    let value = match variable_exec(&name, ctx) {
                        Ok(v) => v,
                        Err(e) => { return Err(e); }
                    };
                    assert(rest.subrange(c - (o + 2) + 2, rest.len() as int) =~= t@.subrange(c + 2, t@.len() as int));
                    let after = match render_from(t, c + 2, ctx) {
                        Ok(v) => v,
                        Err(e) => { return Err(e); }
                    };
                    let mut out = slice_chars(t, start, o);
                    assert(out@ =~= s.subrange(0, o - start));
                    extend_chars(&mut out, &value);
                    extend_chars(&mut out, &after);
                    Ok(out)
                },
            }
        },
    }
}

/// Render one template value.
pub fn value(template: &str, ctx: &Context) -> (r: Result<String, RenderError>)
    requires
        sorted(ctx.ports@),
    ensures
        match (r, rendered(template@, ctx@)) {
            (Ok(v), Ok(w)) => v@ == w,
            (Err(e), Err(f)) => e@ == f,
            _ => false,
        },
{
    let t = chars_of(template);
    assert(t@.subrange(0, t@.len() as int) =~= t@);
    match render_from(&t, 0, ctx) {
        Ok(v) => Ok(string_of(&v)),
        Err(e) => Err(e),
    }
}

/// The variable a dotenv line assigns, if it assigns one: the text before its first
/// `=`, trimmed, with a leading `export ` set aside.
pub open spec fn assigned_key(line: Seq<char>) -> Option<Seq<char>> {
    let l = trim(line);
    let l = if starts_with(l, "export "@) { l.subrange(7, l.len() as int) } else { l };
    match split_once(l, '=') {
        Some((k, _)) => Some(trim(k)),
        None => None,
    }
}

/// `key=value`.
pub open spec fn assignment(key: Seq<char>, value: Seq<char>) -> Seq<char> {
    key + seq!['='] + value
}

/// One line of the copied file: rewritten when it assigns an overridden key.
pub open spec fn rewritten(line: Seq<char>, overrides: Map<Seq<char>, Seq<char>>) -> Seq<char> {
    match assigned_key(line) {
        Some(k) => if overrides.contains_key(k) { assignment(k, overrides[k]) } else { line },
        None => line,
    }
}

/// Some line of the file assigns `key`.
pub open spec fn file_assigns(ls: Seq<Seq<char>>, key: Seq<char>) -> bool {
    exists|i: int| 0 <= i < ls.len() && #[trigger] assigned_key(ls[i]) == Some(key)
}

/// Every line followed by a newline.
pub open spec fn joined(ls: Seq<Seq<char>>) -> Seq<char>
    decreases ls.len(),
{
    if ls.len() == 0 { Seq::empty() } else { joined(ls.drop_last()) + ls.last() + seq!['\n'] }
}

/// The view of a table of string pairs.
pub open spec fn pair_map(s: Seq<(String, String)>) -> Map<Seq<char>, Seq<char>> {
    Map::new(|k: Seq<char>| table_map(s).contains_key(k), |k: Seq<char>| table_map(s)[k]@)
}

/// The overrides no line of the file assigns, in key order.
pub open spec fn unassigned(ls: Seq<Seq<char>>, overrides: Seq<(String, String)>) -> Seq<(String, String)> {
    overrides.filter(not_in_file(ls))
}

/// An override the file never assigns.
pub open spec fn not_in_file(ls: Seq<Seq<char>>) -> spec_fn((String, String)) -> bool {
    |p: (String, String)| !file_assigns(ls, p.0@)
}

/// One `key=value` line per pair.
pub open spec fn assignments(ps: Seq<(String, String)>) -> Seq<Seq<char>> {
    Seq::new(ps.len(), |i: int| assignment(ps[i].0@, ps[i].1@))
}

/// The file's lines, each assignment of an overridden key rewritten to the override.
pub open spec fn kept_lines(ls: Seq<Seq<char>>, overrides: Seq<(String, String)>) -> Seq<Seq<char>> {
    Seq::new(ls.len(), |i: int| rewritten(ls[i], pair_map(overrides)))
}

/// The env file written for an instance: the main checkout's file line by line, each
/// assignment of an overridden key rewritten to the override, then every override the
/// file never assigned, in key order.
pub open spec fn env_text(source: Seq<char>, overrides: Seq<(String, String)>) -> Seq<char> {
    joined(env_lines(source, overrides))
}

/// The lines of the env file written for an instance.
pub open spec fn env_lines(source: Seq<char>, overrides: Seq<(String, String)>) -> Seq<Seq<char>> {
    kept_lines(lines(source), overrides) + assignments(unassigned(lines(source), overrides))
}

fn assigned_key_exec(line: &Vec<char>) -> (r: Option<Vec<char>>)
    ensures
        opt_text_chars(r) == assigned_key(line@),
{
    let l = trim_chars(line);
    let export = chars_of("export ");
    proof { reveal_strlit("export "); }
    let l = if has_prefix(&l, &export) { slice_chars(&l, 7, l.len()) } else { l };
    match split_once_chars(&l, '=') {
        Some((k, _)) => Some(trim_chars(&k)),
        None => None,
    }
}

pub open spec fn opt_text_chars(o: Option<Vec<char>>) -> Option<Seq<char>> {
    match o { Some(v) => Some(v@), None => None }
}

fn same_chars(a: &Vec<char>, b: &str) -> (r: bool)
    ensures
        r == (a@ == b@),
{
    let s = string_of(a);
    crate::table::compare_text(s.as_str(), b) == 0
}

/// The env file for an instance, from the main checkout's copy and the overrides.
pub fn render_env(source: &str, overrides: &Vec<(String, String)>) -> (out: String)
    requires
        sorted(overrides@),
    ensures
        out@ == env_text(source@, overrides@),
{
    let text = chars_of(source);
    let ls = split_lines(&text);
    let ghost lsv = lines(source@);
    let ghost ov = pair_map(overrides@);
    let mut out: Vec<char> = Vec::new();
    let mut keys: Vec<Option<Vec<char>>> = Vec::new();
    let ghost kept = kept_lines(lsv, overrides@);
    let mut i: usize = 0;
    assert(kept.subrange(0, 0) =~= Seq::<Seq<char>>::empty());
    while i < ls.len()
        invariant
            i <= ls.len(),
            char_rows(ls@) == lsv,
            lsv == lines(source@),
            ov == pair_map(overrides@),
            sorted(overrides@),
            kept == kept_lines(lsv, overrides@),
            out@ == joined(kept.subrange(0, i as int)),
            keys@.len() == i,
            forall|j: int| 0 <= j < i ==> opt_text_chars(#[trigger] keys@[j]) == assigned_key(lsv[j]),
        decreases ls.len() - i,
    {
        assert(char_rows(ls@)[i as int] == ls@[i as int]@);
        let key = assigned_key_exec(&ls[i]);
        let mut line_out: Vec<char> = Vec::new();
        let mut replaced = false;
        match &key {
            Some(k) => {
                let ks = string_of(k);
                match table_find(overrides, ks.as_str()) {
                    Some(j) => {
                        proof { crate::table::lemma_value_at(overrides@, j as int); }
                        line_out = k.clone();
                        line_out.push('=');
                        let v = chars_of(overrides[j].1.as_str());
                        extend_chars(&mut line_out, &v);
                        replaced = true;
                    },
                    None => {},
                }
            },
            None => {},
        }
        if !replaced {
            line_out = ls[i].clone();
        }
        assert(line_out@ == kept[i as int]);
        assert(kept.subrange(0, i + 1).drop_last() =~= kept.subrange(0, i as int));
        extend_chars(&mut out, &line_out);
        out.push('\n');
        keys.push(key);
        i += 1;
    }
    assert(kept.subrange(0, lsv.len() as int) =~= kept);
    let mut j: usize = 0;
    while j < overrides.len()
        invariant
            j <= overrides.len(),
            lsv == lines(source@),
            keys@.len() == lsv.len(),
            forall|m: int| 0 <= m < lsv.len() ==> opt_text_chars(#[trigger] keys@[m]) == assigned_key(lsv[m]),
            kept == kept_lines(lsv, overrides@),
            out@ == joined(kept + assignments(unassigned(lsv, overrides@.subrange(0, j as int)))),
        decreases overrides.len() - j,
    {
        let key = &overrides[j].0;
        let mut seen = false;
        let mut m: usize = 0;
        while m < keys.len() && !seen
            invariant
                m <= keys.len(),
                keys@.len() == lsv.len(),
                forall|q: int| 0 <= q < lsv.len() ==> opt_text_chars(#[trigger] keys@[q]) == assigned_key(lsv[q]),
                seen == exists|q: int| 0 <= q < m && #[trigger] assigned_key(lsv[q]) == Some(key@),
            decreases keys.len() - m,
        {
            match &keys[m] {
                Some(k) => {
                    if same_chars(k, key.as_str()) {
                        seen = true;
                    }
                },
                None => {},
            }
            m += 1;
        }
        assert(seen == file_assigns(lsv, key@));
        let ghost before = overrides@.subrange(0, j as int);
        let ghost after = overrides@.subrange(0, j + 1);
        let ghost x = overrides@[j as int];
        proof {
            assert(after =~= before.push(x));
            before.lemma_filter_push(x, not_in_file(lsv));
        }
        let ghost ub = unassigned(lsv, before);
        if !seen {
            let mut line_out = chars_of(key.as_str());
            line_out.push('=');
            let v = chars_of(overrides[j].1.as_str());
            extend_chars(&mut line_out, &v);
            assert(line_out@ == assignment(x.0@, x.1@));
            proof {
                assert(unassigned(lsv, after) == ub.push(x));
                assert(assignments(ub.push(x)) =~= assignments(ub).push(line_out@));
                assert((kept + assignments(ub).push(line_out@)).drop_last() =~= kept + assignments(ub));
            }
            extend_chars(&mut out, &line_out);
            out.push('\n');
        } else {
            assert(unassigned(lsv, after) == ub);
        }
        j += 1;
    }
    assert(overrides@.subrange(0, overrides@.len() as int) =~= overrides@);
    string_of(&out)
}

/// Every override is written: whether the main checkout's file assigned the key or
/// not, the written file has the line `key=value`.
pub proof fn law_every_override_is_written(source: Seq<char>, overrides: Seq<(String, String)>, i: int)
    requires
        sorted(overrides),
        0 <= i < overrides.len(),
    ensures
        env_lines(source, overrides).contains(assignment(overrides[i].0@, overrides[i].1@)),
{
    let ls = lines(source);
    let k = overrides[i].0@;
    let v = overrides[i].1@;
    crate::table::lemma_value_at(overrides, i);
    assert(pair_map(overrides).contains_key(k) && pair_map(overrides)[k] == v);
    let kept = kept_lines(ls, overrides);
    let all = env_lines(source, overrides);
    if file_assigns(ls, k) {
        let j = choose|j: int| 0 <= j < ls.len() && #[trigger] assigned_key(ls[j]) == Some(k);
        assert(kept[j] == assignment(k, v));
        assert(all[j] == kept[j]);
    } else {
        let u = unassigned(ls, overrides);
        overrides.lemma_filter_contains(not_in_file(ls), i);
        assert(u.contains(overrides[i]));
        let q = choose|q: int| 0 <= q < u.len() && u[q] == overrides[i];
        assert(assignments(u)[q] == assignment(k, v));
        assert(all[kept.len() + q] == assignments(u)[q]);
    }
}

/// A line of the main checkout's file that assigns no overridden key is copied as it
/// is, in its place.
pub proof fn law_other_lines_are_kept(source: Seq<char>, overrides: Seq<(String, String)>, j: int)
    requires
        0 <= j < lines(source).len(),
        match assigned_key(lines(source)[j]) {
            Some(k) => !pair_map(overrides).contains_key(k),
            None => true,
        },
    ensures
        env_lines(source, overrides)[j] == lines(source)[j],
{
}

/// Text with no `{{` in it renders as itself.
pub proof fn law_plain_text_renders_as_itself(t: Seq<char>, ctx: ContextView)
    requires
        first_from(t, open_mark(), 0) == -1,
    ensures
        rendered(t, ctx) == Ok::<Seq<char>, RenderErrorView>(t),
{
}

/// `out` is `set` with each template rendered, keys kept.
pub open spec fn pairs_rendered(set: Seq<(String, String)>, out: Seq<(String, String)>, ctx: ContextView) -> bool {
    &&& out.len() == set.len()
    &&& forall|i: int| 0 <= i < set.len() ==> (#[trigger] out[i]).0@ == set[i].0@
        && rendered(set[i].1@, ctx) == Ok::<Seq<char>, RenderErrorView>(out[i].1@)
}

/// Every template of `set` renders.
pub open spec fn all_render(set: Seq<(String, String)>, ctx: ContextView) -> bool {
    forall|i: int| 0 <= i < set.len() ==> (#[trigger] rendered(set[i].1@, ctx)) is Ok
}

/// The first template of `set` that does not render fails with `e`.
pub open spec fn first_failure(set: Seq<(String, String)>, ctx: ContextView, e: RenderErrorView) -> bool {
    exists|i: int| 0 <= i < set.len() && #[trigger] rendered(set[i].1@, ctx) == Err::<Seq<char>, RenderErrorView>(e)
        && forall|j: int| 0 <= j < i ==> (#[trigger] rendered(set[j].1@, ctx)) is Ok
}

/// Render the override templates of one `[secrets.set]` table.
pub fn render_set(set: &Vec<(String, String)>, ctx: &Context) -> (r: Result<Vec<(String, String)>, RenderError>)
    requires
        sorted(ctx.ports@),
    ensures
        r is Ok <==> all_render(set@, ctx@),
        r matches Ok(out) ==> pairs_rendered(set@, out@, ctx@),
        r matches Err(e) ==> first_failure(set@, ctx@, e@),
{
    let mut out: Vec<(String, String)> = Vec::new();
    let mut i: usize = 0;
    while i < set.len()
        invariant
            i <= set.len(),
            sorted(ctx.ports@),
            out@.len() == i,
            forall|j: int| 0 <= j < i ==> (#[trigger] out@[j]).0@ == set@[j].0@
                && rendered(set@[j].1@, ctx@) == Ok::<Seq<char>, RenderErrorView>(out@[j].1@),
        decreases set.len() - i,
    {
        match value(set[i].1.as_str(), ctx) {
            Ok(v) => {
                out.push((set[i].0.clone(), v));
            },
            Err(e) => {
                assert forall|j: int| 0 <= j < i implies (#[trigger] rendered(set@[j].1@, ctx@)) is Ok by {
                    assert(out@[j].0@ == set@[j].0@);
                }
                assert(!all_render(set@, ctx@));
                return Err(e);
            },
        }
        i += 1;
    }
    assert forall|j: int| 0 <= j < set@.len() implies (#[trigger] rendered(set@[j].1@, ctx@)) is Ok by {
        assert(out@[j].0@ == set@[j].0@);
    }
    Ok(out)
}

/// Keys that agree character for character keep a table sorted.
proof fn lemma_same_keys_sorted(a: Seq<(String, String)>, b: Seq<(String, String)>)
    requires
        sorted(a),
        a.len() == b.len(),
        forall|i: int| 0 <= i < a.len() ==> (#[trigger] b[i]).0@ == a[i].0@,
    ensures
        sorted(b),
{
    assert forall|i: int, j: int| 0 <= i < j < b.len() implies lex_lt(#[trigger] b[i].0@, #[trigger] b[j].0@) by {
        assert(b[i].0@ == a[i].0@ && b[j].0@ == a[j].0@);
    }
}

/// The env file one `[[secrets]]` block writes, from the text of its `from` file in
/// the main checkout: the text with every override rendered and applied.
pub fn render_secrets(block: &Secrets, source: &str, ctx: &Context) -> (r: Result<String, RenderError>)
    requires
        sorted(block.set@),
        sorted(ctx.ports@),
    ensures
        r is Ok <==> all_render(block.set@, ctx@),
        r matches Ok(out) ==> exists|v: Seq<(String, String)>| pairs_rendered(block.set@, v, ctx@)
            && #[trigger] env_text(source@, v) == out@,
        r matches Err(e) ==> first_failure(block.set@, ctx@, e@),
{
    match render_set(&block.set, ctx) {
        Ok(v) => {
            proof { lemma_same_keys_sorted(block.set@, v@); }
            let out = render_env(source, &v);
            Ok(out)
        },
        Err(e) => Err(e),
    }
}

/// Where a `[[secrets]]` block reads from: its `from`, in the main checkout.
pub fn secrets_source(block: &Secrets, resolved: &Resolved) -> (p: String)
    ensures
        p@ == join_path(resolved.main_worktree@, block.from@),
{
    join(resolved.main_worktree.as_str(), block.from.as_str())
}

/// Where a `[[secrets]]` block writes: its `into`, in this worktree.
pub fn secrets_target(block: &Secrets, resolved: &Resolved) -> (p: String)
    ensures
        p@ == join_path(resolved.worktree@, block.into@),
{
    join(resolved.worktree.as_str(), block.into.as_str())
}

} // verus!
