//! Locating the pieces of an instance: which worktree, which main checkout, what name.

use vstd::prelude::*;
use crate::text::{
    chars_of, string_of, owned, push_text, hex8, hex_digits, has_prefix, slice_chars, split_lines,
    char_rows, lines, starts_with, trim, trim_chars,
};
use vstd::string::*;
use vstd::utf8::encode_utf8;

verus! {

/// `c` is an ASCII letter or digit.
pub open spec fn is_ascii_alnum(c: char) -> bool {
    ('a' <= c && c <= 'z') || ('A' <= c && c <= 'Z') || ('0' <= c && c <= '9')
}

/// The slug character for `c`: ASCII letters and digits lowercased, anything else `_`.
pub open spec fn slug_char(c: char) -> char {
    if 'A' <= c && c <= 'Z' {
        ((c as u32) + 32) as char
    } else if is_ascii_alnum(c) {
        c
    } else {
        '_'
    }
}

/// A directory name turned into an instance name, character by character.
pub open spec fn slug_of(name: Seq<char>) -> Seq<char> {
    Seq::new(name.len(), |i: int| slug_char(name[i]))
}

/// `c` may stand in a slug: a lowercase ASCII letter, a digit, or `_`.
pub open spec fn slug_safe(c: char) -> bool {
    ('a' <= c && c <= 'z') || ('0' <= c && c <= '9') || c == '_'
}

/// A slug is used verbatim in database names, so it stays inside `[a-z0-9_]`, and it
/// has one character for each character of the directory name.
pub proof fn law_slugs_are_safe_names(name: Seq<char>)
    ensures
        slug_of(name).len() == name.len(),
        forall|i: int| 0 <= i < name.len() ==> slug_safe(#[trigger] slug_of(name)[i]),
{
    assert forall|i: int| 0 <= i < name.len() implies slug_safe(#[trigger] slug_of(name)[i]) by {
        let c = name[i];
        if 'A' <= c && c <= 'Z' {
            assert(('a' as u32) <= (c as u32) + 32 <= ('z' as u32));
        }
    }
}

/// A slug is already its own slug: naming an instance after a directory that is
/// itself called by a slug changes nothing.
pub proof fn law_a_slug_slugifies_to_itself(name: Seq<char>)
    ensures
        slug_of(slug_of(name)) == slug_of(name),
{
    law_slugs_are_safe_names(name);
    assert forall|i: int| 0 <= i < name.len() implies #[trigger] slug_of(slug_of(name))[i] == slug_of(name)[i] by {
        assert(slug_safe(slug_of(name)[i]));
    }
    assert(slug_of(slug_of(name)) =~= slug_of(name));
}

pub fn slugify(name: &str) -> (slug: String)
    ensures
        slug@ == slug_of(name@),
{
    let cs = chars_of(name);
    let mut out: Vec<char> = Vec::new();
    let mut i: usize = 0;
    while i < cs.len()
        invariant
            cs@ == name@,
            i <= cs.len(),
            out@ == slug_of(name@).subrange(0, i as int),
        decreases cs.len() - i,
    {
        let c = cs[i];
        let mapped: char = if 'A' <= c && c <= 'Z' {
            ((c as u8) + 32) as char
        } else if ('a' <= c && c <= 'z') || ('0' <= c && c <= '9') {
            c
        } else {
            '_'
        };
        out.push(mapped);
        i += 1;
    }
    assert(out@ == slug_of(name@));
    string_of(&out)
}

/// The FNV-1a offset basis.
pub const FNV_BASIS: u32 = 0x811c_9dc5;

/// The FNV-1a prime.
pub const FNV_PRIME: u32 = 0x0100_0193;

/// One FNV-1a round: xor in the byte, multiply by the prime, keep 32 bits.
pub open spec fn fnv_step(h: u32, b: u8) -> u32 {
    (((h ^ (b as u32)) as nat * (FNV_PRIME as nat)) % 0x1_0000_0000nat) as u32
}

/// 32-bit FNV-1a of `bytes`.
pub open spec fn fnv1a_of(bytes: Seq<u8>) -> u32
    decreases bytes.len(),
{
    if bytes.len() == 0 {
        FNV_BASIS
    } else {
        fnv_step(fnv1a_of(bytes.drop_last()), bytes.last())
    }
}

/// 32-bit FNV-1a. Hand-rolled rather than `DefaultHasher` because the value is
/// persisted: in the registry, in state directory names, in which port block an
/// instance is offered first. It has to mean the same thing in every build.
pub fn fnv1a(bytes: &[u8]) -> (h: u32)
    ensures
        h == fnv1a_of(bytes@),
{
    let mut hash: u32 = FNV_BASIS;
    let mut i: usize = 0;
    while i < bytes.len()
        invariant
            i <= bytes@.len(),
            hash == fnv1a_of(bytes@.subrange(0, i as int)),
        decreases bytes@.len() - i,
    {
        assert(bytes@.subrange(0, i + 1).drop_last() =~= bytes@.subrange(0, i as int));
        hash = (hash ^ (bytes[i] as u32)).wrapping_mul(FNV_PRIME);
        i += 1;
    }
    assert(bytes@.subrange(0, bytes@.len() as int) =~= bytes@);
    hash
}

/// Index of the last `'/'` in `p`, or -1.
pub open spec fn last_slash(p: Seq<char>) -> int
    decreases p.len(),
{
    if p.len() == 0 {
        -1
    } else if p.last() == '/' {
        p.len() - 1
    } else {
        last_slash(p.drop_last())
    }
}

proof fn lemma_last_slash(p: Seq<char>)
    ensures
        -1 <= last_slash(p) < p.len(),
        last_slash(p) >= 0 ==> p[last_slash(p)] == '/',
        forall|j: int| last_slash(p) < j < p.len() ==> p[j] != '/',
    decreases p.len(),
{
    if p.len() > 0 && p.last() != '/' {
        lemma_last_slash(p.drop_last());
        assert forall|j: int| last_slash(p) < j < p.len() implies p[j] != '/' by {
            if j < p.len() - 1 {
                assert(p[j] == p.drop_last()[j]);
            }
        }
    }
}

/// The final component of a path, as `Path::file_name` gives it: trailing `/` and
/// `.` components are passed over, and a path that ends in `..`, or has no normal
/// component at all, has none.
pub open spec fn file_name_of(p: Seq<char>) -> Option<Seq<char>>
    decreases p.len(),
{
    if p.len() == 0 {
        None
    } else if p.last() == '/' {
        file_name_of(p.drop_last())
    } else {
        let s = last_slash(p);
        let seg = p.subrange(s + 1, p.len() as int);
        if seg == seq!['.'] {
            if s < 0 || s >= p.len() { None } else { file_name_of(p.subrange(0, s)) }
        } else if seg == seq!['.', '.'] {
            None
        } else {
            Some(seg)
        }
    }
}

fn file_name_upto(cs: &Vec<char>, end: usize) -> (r: Option<Vec<char>>)
    requires
        end <= cs.len(),
    ensures
        crate::text::opt_chars(r) == file_name_of(cs@.subrange(0, end as int)),
    decreases end,
{
    let ghost p = cs@.subrange(0, end as int);
    if end == 0 {
        return None;
    }
    if cs[end - 1] == '/' {
        assert(p.drop_last() =~= cs@.subrange(0, end - 1));
        return file_name_upto(cs, end - 1);
    }
    let mut s: usize = end;
    while s > 0 && cs[s - 1] != '/'
        invariant
            s <= end <= cs.len(),
            forall|j: int| s <= j < end ==> cs@[j] != '/',
        decreases s,
    {
        s -= 1;
    }
    proof {
        lemma_last_slash(p);
        if s > 0 {
            assert(p[s - 1] == '/');
            assert(last_slash(p) == s - 1);
        } else {
            assert(forall|j: int| 0 <= j < p.len() ==> p[j] != '/');
            if last_slash(p) >= 0 {
                assert(p[last_slash(p)] == '/');
            }
            assert(last_slash(p) == -1);
        }
    }
    let seg = slice_chars(cs, s, end);
    assert(seg@ == p.subrange(last_slash(p) + 1, p.len() as int));
    if seg.len() == 1 && seg[0] == '.' {
        assert(seg@ =~= seq!['.']);
        if s == 0 {
            return None;
        }
        assert(cs@.subrange(0, (s - 1) as int) =~= p.subrange(0, last_slash(p)));
        return file_name_upto(cs, s - 1);
    }
    if seg.len() == 1 {
        assert(seg@ != seq!['.']);
    }
    if seg.len() == 2 && seg[0] == '.' && seg[1] == '.' {
        assert(seg@ =~= seq!['.', '.']);
        return None;
    }
    if seg.len() == 2 {
        assert(seg@ != seq!['.', '.']);
    }
    Some(seg)
}

/// The final component of `path`.
pub fn file_name(path: &str) -> (r: Option<String>)
    ensures
        crate::text::opt_text(r) == file_name_of(path@),
{
    let cs = chars_of(path);
    assert(cs@.subrange(0, cs@.len() as int) =~= cs@);
    match file_name_upto(&cs, cs.len()) {
        Some(v) => Some(string_of(&v)),
        None => None,
    }
}

/// Where an instance lives, as git reports it.
#[derive(Debug)]
pub struct Resolved {
    /// Root of the worktree grove was invoked from.
    pub worktree: String,
    /// The main worktree — the only place gitignored secrets reliably live.
    pub main_worktree: String,
    /// Instance name, `[a-z0-9_]`, derived from the worktree directory. Used verbatim
    /// in database names, so it stays inside what Mongo and Postgres both accept.
    pub slug: String,
}

/// The name a repository's state goes under: its directory name made safe, then the
/// hash of its full path in eight hex digits.
pub open spec fn state_key_of(main_worktree: Seq<char>) -> Seq<char> {
    let name = match file_name_of(main_worktree) {
        Some(n) => slug_of(n),
        None => seq!['r', 'e', 'p', 'o'],
    };
    name + seq!['-'] + hex_digits(fnv1a_of(encode_utf8(main_worktree)) as nat, 8)
}

/// Every worktree of a repo shares one state key: the key depends on the main
/// worktree alone.
pub proof fn law_worktrees_of_a_repo_share_a_state_key(a: Resolved, b: Resolved)
    requires
        a.main_worktree@ == b.main_worktree@,
    ensures
        state_key_of(a.main_worktree@) == state_key_of(b.main_worktree@),
{
}

impl Resolved {
    /// True when grove was invoked from the main checkout. Mutating commands refuse
    /// here: rendering would overwrite the real `.env.local` every instance reads from.
    pub fn is_main(&self) -> (r: bool)
        ensures
            r == (self.worktree@ == self.main_worktree@),
    {
        self.worktree == self.main_worktree
    }

    /// Filesystem-safe identity for the repo, shared by all its worktrees — the
    /// directory name plus a hash of the full path, so two checkouts of the same repo
    /// in different places never share a registry entry.
    pub fn state_key(&self) -> (key: String)
        ensures
            key@ == state_key_of(self.main_worktree@),
    {
        let mut key = match file_name(self.main_worktree.as_str()) {
            Some(n) => slugify(n.as_str()),
            None => owned("repo"),
        };
        proof { reveal_strlit("repo"); reveal_strlit("-"); }
        push_text(&mut key, "-");
        let hash = fnv1a(self.main_worktree.as_str().as_bytes());
        let digits = hex8(hash);
        let digits = string_of(&digits);
        push_text(&mut key, digits.as_str());
        assert(key@ =~= state_key_of(self.main_worktree@));
        key
    }
}

/// Why git's answers did not locate an instance.
#[derive(Debug)]
pub enum ResolveError {
    /// `git worktree list --porcelain` named no worktree.
    NoWorktrees,
    /// The worktree root has no final component to name the instance after.
    NoFinalComponent,
}

impl ResolveError {
    pub open spec fn message_of(&self) -> Seq<char> {
        match self {
            ResolveError::NoWorktrees => "`git worktree list --porcelain` listed no worktrees"@,
            ResolveError::NoFinalComponent => "worktree path has no final component"@,
        }
    }

    pub fn message(&self) -> (m: String)
        ensures
            m@ == self.message_of(),
    {
        match self {
            ResolveError::NoWorktrees => owned("`git worktree list --porcelain` listed no worktrees"),
            ResolveError::NoFinalComponent => owned("worktree path has no final component"),
        }
    }
}

pub open spec fn worktree_prefix() -> Seq<char> {
    seq!['w', 'o', 'r', 'k', 't', 'r', 'e', 'e', ' ']
}

/// The main worktree named by porcelain output: what follows `worktree ` on the first
/// line that starts with it.
pub open spec fn main_worktree_in(ls: Seq<Seq<char>>) -> Option<Seq<char>>
    decreases ls.len(),
{
    if ls.len() == 0 {
        None
    } else if starts_with(ls[0], worktree_prefix()) {
        Some(ls[0].subrange(worktree_prefix().len() as int, ls[0].len() as int))
    } else {
        main_worktree_in(ls.drop_first())
    }
}

/// What `resolve` answers for git's two outputs.
pub open spec fn resolve_spec(porcelain: Seq<char>, toplevel: Seq<char>) -> Result<(Seq<char>, Seq<char>, Seq<char>), ResolveError> {
    match main_worktree_in(lines(porcelain)) {
        None => Err(ResolveError::NoWorktrees),
        Some(main) => match file_name_of(trim(toplevel)) {
            None => Err(ResolveError::NoFinalComponent),
            Some(name) => Ok((trim(toplevel), main, slug_of(name))),
        },
    }
}

/// Locate the instance from git's answers: `porcelain` is the output of
/// `git worktree list --porcelain`, `toplevel` that of `git rev-parse --show-toplevel`.
/// Everything hangs off git's bookkeeping rather than path shape, so every worktree
/// layout resolves the same way.
pub fn resolve(porcelain: &str, toplevel: &str) -> (r: Result<Resolved, ResolveError>)
    ensures
        match (r, resolve_spec(porcelain@, toplevel@)) {
            (Ok(got), Ok((w, m, s))) => got.worktree@ == w && got.main_worktree@ == m && got.slug@ == s,
            (Err(ResolveError::NoWorktrees), Err(ResolveError::NoWorktrees)) => true,
            (Err(ResolveError::NoFinalComponent), Err(ResolveError::NoFinalComponent)) => true,
            _ => false,
        },
{
    let text = chars_of(porcelain);
    let ls = split_lines(&text);
    let prefix = chars_of("worktree ");
    proof { reveal_strlit("worktree "); }
    assert(prefix@ =~= worktree_prefix());
    let mut i: usize = 0;
    let mut found: Option<Vec<char>> = None;
    assert(char_rows(ls@).subrange(0, ls@.len() as int) =~= char_rows(ls@));
    while i < ls.len() && found.is_none()
        invariant
            i <= ls.len(),
            char_rows(ls@) == lines(porcelain@),
            prefix@ == worktree_prefix(),
            found is None ==> main_worktree_in(lines(porcelain@)) == main_worktree_in(char_rows(ls@).subrange(i as int, ls@.len() as int)),
            found is Some ==> crate::text::opt_chars(found) == main_worktree_in(lines(porcelain@)),
        decreases ls.len() - i,
    {
        let ghost rest = char_rows(ls@).subrange(i as int, ls@.len() as int);
        assert(rest.drop_first() =~= char_rows(ls@).subrange(i + 1, ls@.len() as int));
        assert(rest[0] == ls@[i as int]@);
        if has_prefix(&ls[i], &prefix) {
            found = Some(slice_chars(&ls[i], prefix.len(), ls[i].len()));
        }
        i += 1;
    }
    if found.is_none() {
        assert(char_rows(ls@).subrange(i as int, ls@.len() as int).len() == 0);
    }
    let main = match found {
        None => { return Err(ResolveError::NoWorktrees); }
        Some(m) => string_of(&m),
    };
    let top = chars_of(toplevel);
    let top = trim_chars(&top);
    let worktree = string_of(&top);
    let slug = match file_name(worktree.as_str()) {
        None => { return Err(ResolveError::NoFinalComponent); }
        Some(n) => slugify(n.as_str()),
    };
    Ok(Resolved { worktree, main_worktree: main, slug })
}

} // verus!
