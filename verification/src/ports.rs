//! Port allocation: every instance gets a contiguous block nobody else holds.

use vstd::prelude::*;
use vstd::utf8::encode_utf8;
use std::collections::HashSet;
use std::ops::Range;
use crate::resolve::{fnv1a, fnv1a_of};
use crate::table::{sorted, table_map, table_insert};
use crate::text::{chars_of, decimal, decimal_text, owned, push_text, split_once_chars, trim_chars, parse_uint_chars, split_once, trim, parse_uint};

verus! {

broadcast use vstd::std_specs::hash::group_hash_axioms;

/// Deliberately far from 3000/5173/8000/8080. Every dev config carries a hardcoded
/// fallback to one of those, so an instance whose rewrite failed lands on a dead port
/// and says so, instead of quietly answering with a neighbour's data.
pub const RANGE_START: u16 = 20000;
pub const RANGE_END: u16 = 30000;

/// Ports per instance are contiguous, so a block is easy to read and easy to reserve.
pub const STRIDE: u16 = 10;

/// The default range, `20000..30000`.
pub fn default_range() -> (r: Range<u16>)
    ensures
        r.start == RANGE_START,
        r.end == RANGE_END,
{
    Range { start: RANGE_START, end: RANGE_END }
}

/// What `parse_range` reads from `low-high`.
pub open spec fn range_of(text: Seq<char>) -> Option<(u16, u16)> {
    match split_once(text, '-') {
        None => None,
        Some((a, b)) => match (parse_uint(trim(a), 65535), parse_uint(trim(b), 65535)) {
            (Some(low), Some(high)) => if low < high { Some((low as u16, high as u16)) } else { None },
            _ => None,
        },
    }
}

/// `low-high`, each side trimmed, `low` strictly below `high`.
pub fn parse_range(text: &str) -> (r: Option<Range<u16>>)
    ensures
        match r {
            Some(range) => range_of(text@) == Some((range.start, range.end)),
            None => range_of(text@) is None,
        },
{
    let cs = chars_of(text);
    let (a, b) = match split_once_chars(&cs, '-') {
        None => { return None; }
        Some(parts) => parts,
    };
    let a = trim_chars(&a);
    let b = trim_chars(&b);
    let low = match parse_uint_chars(&a, 65535) {
        None => { return None; }
        Some(v) => v as u16,
    };
    let high = match parse_uint_chars(&b, 65535) {
        None => { return None; }
        Some(v) => v as u16,
    };
    if low < high { Some(Range { start: low, end: high }) } else { None }
}

/// The range in force: what `GROVE_PORT_RANGE` holds when it parses, the default
/// otherwise. One machine running several registries — a test suite, or two state
/// dirs — shares one port space, and a range each is what keeps their instances from
/// landing on the same block in the same moment.
pub fn range(setting: Option<&str>) -> (r: Range<u16>)
    ensures
        match setting {
            Some(t) => match range_of(t@) {
                Some((low, high)) => r.start == low && r.end == high,
                None => r.start == RANGE_START && r.end == RANGE_END,
            },
            None => r.start == RANGE_START && r.end == RANGE_END,
        },
{
    match setting {
        Some(t) => match parse_range(t) {
            Some(r) => r,
            None => default_range(),
        },
        None => default_range(),
    }
}

/// How many blocks of `STRIDE` ports the range holds, at least one.
pub open spec fn blocks_in(start: u16, end: u16) -> nat {
    let b = (end - start) / (STRIDE as int);
    if b >= 1 { b as nat } else { 1 }
}

/// The block an instance tries first: the hash of `repo_key/slug`.
pub open spec fn first_block(repo_key: Seq<char>, slug: Seq<char>, blocks: nat) -> nat {
    (fnv1a_of(encode_utf8(repo_key + seq!['/'] + slug)) as nat) % blocks
}

/// First port of the block tried at `step`: start at the hashed block, then walk.
pub open spec fn base_at(start: u16, end: u16, repo_key: Seq<char>, slug: Seq<char>, step: nat) -> int {
    let blocks = blocks_in(start, end);
    start + ((first_block(repo_key, slug, blocks) + step) % blocks) * (STRIDE as int)
}

/// Where the last occurrence of `n` sits in `names`.
pub open spec fn last_index(names: Seq<Seq<char>>, n: Seq<char>) -> int
    decreases names.len(),
{
    if names.len() == 0 {
        -1
    } else if names.last() == n {
        names.len() - 1
    } else {
        last_index(names.drop_last(), n)
    }
}

/// The block at `base`: each name gets `base` plus its position in the list, and a
/// name listed twice keeps its later position.
pub open spec fn block_map(names: Seq<Seq<char>>, base: int) -> Map<Seq<char>, u16> {
    Map::new(|n: Seq<char>| names.contains(n), |n: Seq<char>| (base + last_index(names, n)) as u16)
}

/// Some port of the block was already promised elsewhere, or the probe found it
/// taken.
pub open spec fn rejected<F: Fn(u16) -> bool>(block: Map<Seq<char>, u16>, taken: Set<u16>, is_free: F) -> bool {
    exists|n: Seq<char>| #[trigger] block.contains_key(n)
        && (taken.contains(block[n]) || is_free.ensures((block[n],), false))
}

/// Every port of the block is unpromised, and the probe found each free.
pub open spec fn accepted<F: Fn(u16) -> bool>(block: Map<Seq<char>, u16>, taken: Set<u16>, is_free: F) -> bool {
    forall|n: Seq<char>| #[trigger] block.contains_key(n)
        ==> !taken.contains(block[n]) && is_free.ensures((block[n],), true)
}

/// A block was found at some step of the walk, every earlier step having been turned
/// down.
pub open spec fn allocated<F: Fn(u16) -> bool>(
    start: u16, end: u16, repo_key: Seq<char>, slug: Seq<char>, names: Seq<Seq<char>>,
    taken: Set<u16>, is_free: F, block: Map<Seq<char>, u16>,
) -> bool {
    exists|step: nat| {
        &&& #[trigger] base_at(start, end, repo_key, slug, step) >= 0
        &&& step < blocks_in(start, end)
        &&& block == block_map(names, base_at(start, end, repo_key, slug, step))
        &&& accepted(block, taken, is_free)
        &&& forall|earlier: nat| earlier < step ==> rejected(
                block_map(names, #[trigger] base_at(start, end, repo_key, slug, earlier)), taken, is_free)
    }
}

/// Every block of the range was turned down.
pub open spec fn exhausted<F: Fn(u16) -> bool>(
    start: u16, end: u16, repo_key: Seq<char>, slug: Seq<char>, names: Seq<Seq<char>>,
    taken: Set<u16>, is_free: F,
) -> bool {
    forall|step: nat| step < blocks_in(start, end) ==> rejected(
        block_map(names, #[trigger] base_at(start, end, repo_key, slug, step)), taken, is_free)
}

/// Why no block was handed out.
#[derive(Debug)]
pub enum PortsError {
    /// More port names than a block holds.
    TooMany { slug: String, count: usize },
    /// Every block in the range was promised or busy.
    NoFreeBlock { start: u16, end: u16 },
}

/// What an allocation answers: nothing to do for no names, a refusal for more names
/// than a block holds, and otherwise the first block of the walk that is neither
/// promised nor busy, or the report that there was none.
pub open spec fn allocation_result<F: Fn(u16) -> bool>(
    start: u16, end: u16, repo_key: Seq<char>, slug: Seq<char>, names: Seq<Seq<char>>,
    taken: Set<u16>, is_free: F, r: Result<Vec<(String, u16)>, PortsError>,
) -> bool {
    &&& names.len() == 0 ==> (r matches Ok(b) && b@.len() == 0)
    &&& names.len() > STRIDE ==> (r matches Err(PortsError::TooMany { slug: s, count }) && s@ == slug
            && count == names.len())
    &&& r matches Err(PortsError::TooMany { .. }) ==> names.len() > STRIDE
    &&& 0 < names.len() <= STRIDE ==> match r {
            Ok(block) => sorted(block@) && allocated(start, end, repo_key, slug, names, taken, is_free, table_map(block@)),
            Err(PortsError::NoFreeBlock { start: s, end: e }) => s == start && e == end
                && exhausted(start, end, repo_key, slug, names, taken, is_free),
            Err(_) => false,
        }
}

impl PortsError {
    pub open spec fn message_of(&self) -> Seq<char> {
        match self {
            PortsError::TooMany { slug, count } => slug@ + " needs "@ + decimal(*count as nat) + " ports but a block holds 10"@,
            PortsError::NoFreeBlock { start, end } => "no free port block in "@ + decimal(*start as nat) + ".."@
                + decimal(*end as nat) + "; run `grove ls` and stop instances you are done with"@,
        }
    }

    pub fn message(&self) -> (m: String)
        ensures
            m@ == self.message_of(),
    {
        match self {
            PortsError::TooMany { slug, count } => {
                let mut m = slug.clone();
                push_text(&mut m, " needs ");
                let n = decimal_text(*count as u64);
                push_text(&mut m, n.as_str());
                push_text(&mut m, " ports but a block holds 10");
                m
            },
            PortsError::NoFreeBlock { start, end } => {
                let mut m = owned("no free port block in ");
                let a = decimal_text(*start as u64);
                push_text(&mut m, a.as_str());
                push_text(&mut m, "..");
                let b = decimal_text(*end as u64);
                push_text(&mut m, b.as_str());
                push_text(&mut m, "; run `grove ls` and stop instances you are done with");
                m
            },
        }
    }
}

proof fn lemma_block_map_push(names: Seq<Seq<char>>, n: Seq<char>, base: int)
    ensures
        block_map(names.push(n), base) == block_map(names, base).insert(n, (base + names.len()) as u16),
{
    let bigger = names.push(n);
    assert(bigger.drop_last() =~= names);
    assert forall|q: Seq<char>| #[trigger] bigger.contains(q) == (names.contains(q) || q == n) by {
        if bigger.contains(q) && q != n {
            let i = choose|i: int| 0 <= i < bigger.len() && bigger[i] == q;
            assert(names[i] == q);
        }
        if names.contains(q) {
            let i = choose|i: int| 0 <= i < names.len() && names[i] == q;
            assert(bigger[i] == q);
        }
        if q == n {
            assert(bigger[names.len() as int] == q);
        }
    }
    assert(block_map(bigger, base) =~= block_map(names, base).insert(n, (base + names.len()) as u16));
}

/// The ports of the block at `base`, in name order.
fn block_at(names: &Vec<String>, base: u16) -> (block: Vec<(String, u16)>)
    requires
        names.len() <= STRIDE,
        base as int + names@.len() <= 65536,
    ensures
        sorted(block@),
        table_map(block@) == block_map(crate::text::texts(names@), base as int),
{
    let mut block: Vec<(String, u16)> = Vec::new();
    let mut i: usize = 0;
    let ghost all = crate::text::texts(names@);
    proof {
        assert(all.subrange(0, 0) =~= Seq::<Seq<char>>::empty());
        assert(table_map(block@) =~= block_map(all.subrange(0, 0), base as int));
    }
    while i < names.len()
        invariant
            i <= names.len(),
            names.len() <= STRIDE,
            base as int + names@.len() <= 65536,
            all == crate::text::texts(names@),
            sorted(block@),
            table_map(block@) == block_map(all.subrange(0, i as int), base as int),
        decreases names.len() - i,
    {
        let port: u16 = base + i as u16;
        table_insert(&mut block, names[i].clone(), port);
        proof {
            assert(all.subrange(0, i + 1) =~= all.subrange(0, i as int).push(all[i as int]));
            lemma_block_map_push(all.subrange(0, i as int), all[i as int], base as int);
        }
        i += 1;
    }
    assert(all.subrange(0, names.len() as int) =~= all);
    block
}

proof fn lemma_last_index_in(names: Seq<Seq<char>>, n: Seq<char>)
    requires
        names.contains(n),
    ensures
        0 <= last_index(names, n) < names.len(),
    decreases names.len(),
{
    if names.last() != n {
        let k = choose|k: int| 0 <= k < names.len() && names[k] == n;
        assert(names.drop_last()[k] == n);
        lemma_last_index_in(names.drop_last(), n);
    }
}

/// Allocation is stable: two allocations for one instance over the same range and
/// promises, whose bind tests never disagree about a port, hand out the same block.
/// Hashing is what makes an instance land where it landed before.
pub proof fn law_allocation_is_stable<F: Fn(u16) -> bool, G: Fn(u16) -> bool>(
    start: u16, end: u16, repo_key: Seq<char>, slug: Seq<char>, names: Seq<Seq<char>>, taken: Set<u16>,
    first_test: F, second_test: G, first: Map<Seq<char>, u16>, second: Map<Seq<char>, u16>,
)
    requires
        allocated(start, end, repo_key, slug, names, taken, first_test, first),
        allocated(start, end, repo_key, slug, names, taken, second_test, second),
        forall|p: u16| first_test.ensures((p,), true) ==> !second_test.ensures((p,), false),
        forall|p: u16| second_test.ensures((p,), true) ==> !first_test.ensures((p,), false),
    ensures
        first == second,
{
    let a = choose|step: nat| {
        &&& #[trigger] base_at(start, end, repo_key, slug, step) >= 0
        &&& step < blocks_in(start, end)
        &&& first == block_map(names, base_at(start, end, repo_key, slug, step))
        &&& accepted(first, taken, first_test)
        &&& forall|earlier: nat| earlier < step ==> rejected(
                block_map(names, #[trigger] base_at(start, end, repo_key, slug, earlier)), taken, first_test)
    };
    let b = choose|step: nat| {
        &&& #[trigger] base_at(start, end, repo_key, slug, step) >= 0
        &&& step < blocks_in(start, end)
        &&& second == block_map(names, base_at(start, end, repo_key, slug, step))
        &&& accepted(second, taken, second_test)
        &&& forall|earlier: nat| earlier < step ==> rejected(
                block_map(names, #[trigger] base_at(start, end, repo_key, slug, earlier)), taken, second_test)
    };
    if a < b {
        assert(rejected(block_map(names, base_at(start, end, repo_key, slug, a)), taken, second_test));
    } else if b < a {
        assert(rejected(block_map(names, base_at(start, end, repo_key, slug, b)), taken, first_test));
    }
}

/// Every port handed out lies in the range in force, when the range holds a block:
/// an instance never lands on a port below or above what was configured.
pub proof fn law_ports_stay_in_the_range<F: Fn(u16) -> bool>(
    start: u16, end: u16, repo_key: Seq<char>, slug: Seq<char>, names: Seq<Seq<char>>, taken: Set<u16>,
    is_free: F, block: Map<Seq<char>, u16>, name: Seq<char>,
)
    requires
        end - start >= STRIDE,
        names.len() <= STRIDE,
        allocated(start, end, repo_key, slug, names, taken, is_free, block),
        block.contains_key(name),
    ensures
        start <= block[name] < end,
{
    let step = choose|step: nat| {
        &&& #[trigger] base_at(start, end, repo_key, slug, step) >= 0
        &&& step < blocks_in(start, end)
        &&& block == block_map(names, base_at(start, end, repo_key, slug, step))
        &&& accepted(block, taken, is_free)
        &&& forall|earlier: nat| earlier < step ==> rejected(
                block_map(names, #[trigger] base_at(start, end, repo_key, slug, earlier)), taken, is_free)
    };
    let blocks = blocks_in(start, end);
    let k = (first_block(repo_key, slug, blocks) + step) % blocks;
    assert(0 <= k < blocks);
    assert(blocks * 10 <= end - start);
    assert(k * 10 + 10 <= blocks * 10) by (nonlinear_arith)
        requires 0 <= k < blocks;
    lemma_last_index_in(names, name);
    assert(base_at(start, end, repo_key, slug, step) == start + k * 10);
}

/// Start at the block this instance hashes to, then walk the range. Hashing gives
/// stability across restarts; walking gives correctness when the machine is busy.
///
/// `taken` carries ports the registry has promised to other instances: they may not
/// be listening yet, so a bind test alone would call them free and hand out a
/// duplicate. `is_free` is that bind test, asked of each port of a block that no
/// promise rules out.
pub fn allocate_within<F: Fn(u16) -> bool>(
    range: Range<u16>,
    repo_key: &str,
    slug: &str,
    names: &Vec<String>,
    taken: &HashSet<u16>,
    is_free: F,
) -> (r: Result<Vec<(String, u16)>, PortsError>)
    requires
        range.start <= range.end,
        names@.len() > STRIDE || range.start + names@.len() <= 65536,
        forall|p: u16| is_free.requires((p,)),
    ensures
        allocation_result(range.start, range.end, repo_key@, slug@, crate::text::texts(names@), taken@, is_free, r),
{
    if names.len() == 0 {
        return Ok(Vec::new());
    }
    if names.len() > 10 {
        return Err(PortsError::TooMany { slug: owned(slug), count: names.len() });
    }
    let width: u16 = range.end - range.start;
    let blocks: u16 = if width / STRIDE >= 1 { width / STRIDE } else { 1 };
    assert(blocks as nat == blocks_in(range.start, range.end));
    let mut label = owned(repo_key);
    push_text(&mut label, "/");
    push_text(&mut label, slug);
    proof { reveal_strlit("/"); }
    assert(label@ == repo_key@ + seq!['/'] + slug@);
    let hash = fnv1a(label.as_str().as_bytes());
    let first: u32 = hash % (blocks as u32);
    let ghost ns = crate::text::texts(names@);
    let mut step: u16 = 0;
    while step < blocks
        invariant
            0 < names.len() <= STRIDE,
            range.start <= range.end,
            names@.len() > STRIDE || range.start + names@.len() <= 65536,
            forall|p: u16| is_free.requires((p,)),
            width == range.end - range.start,
            blocks as nat == blocks_in(range.start, range.end),
            first as nat == first_block(repo_key@, slug@, blocks as nat),
            ns == crate::text::texts(names@),
            step <= blocks,
            forall|earlier: nat| earlier < step ==> rejected(
                block_map(ns, #[trigger] base_at(range.start, range.end, repo_key@, slug@, earlier)),
                taken@, is_free),
        decreases blocks - step,
    {
        let block_no: u32 = (first + step as u32) % (blocks as u32);
        proof {
            if width >= STRIDE {
                assert(blocks as int * STRIDE <= width) by (nonlinear_arith)
                    requires blocks == width / 10, width >= 10, STRIDE == 10;
                assert(block_no as int * STRIDE <= (blocks as int - 1) * STRIDE) by (nonlinear_arith)
                    requires block_no < blocks;
            } else {
                assert(block_no == 0);
            }
        }
        let base: u16 = range.start + (block_no as u16) * STRIDE;
        assert(base as int == base_at(range.start, range.end, repo_key@, slug@, step as nat));
        let block = block_at(names, base);
        // Every port unpromised and answering a bind.
        let mut ok = true;
        let mut j: usize = 0;
        while j < block.len() && ok
            invariant
                j <= block.len(),
                forall|p: u16| is_free.requires((p,)),
                sorted(block@),
                ok ==> forall|k: int| 0 <= k < j ==> !taken@.contains(#[trigger] block@[k].1)
                    && is_free.ensures((block@[k].1,), true),
                !ok ==> exists|k: int| 0 <= k < block.len() && (taken@.contains(#[trigger] block@[k].1)
                    || is_free.ensures((block@[k].1,), false)),
            decreases block.len() - j,
        {
            let p = block[j].1;
            if taken.contains(&p) {
                ok = false;
            } else {
                let free = is_free(p);
                if !free {
                    ok = false;
                }
            }
            j += 1;
        }
        let ghost bm = table_map(block@);
        if ok {
            assert(accepted(bm, taken@, is_free)) by {
                assert forall|n: Seq<char>| #[trigger] bm.contains_key(n)
                    implies !taken@.contains(bm[n]) && is_free.ensures((bm[n],), true) by {
                    let k = choose|k: int| 0 <= k < block@.len() && #[trigger] block@[k].0@ == n;
                    crate::table::lemma_value_at(block@, k);
                }
            }
            return Ok(block);
        }
        assert(rejected(bm, taken@, is_free)) by {
            let k = choose|k: int| 0 <= k < block.len() && (taken@.contains(#[trigger] block@[k].1)
                || is_free.ensures((block@[k].1,), false));
            crate::table::lemma_value_at(block@, k);
        }
        step += 1;
    }
    Err(PortsError::NoFreeBlock { start: range.start, end: range.end })
}

/// A block for this instance, avoiding ports promised elsewhere.
pub fn allocate_avoiding<F: Fn(u16) -> bool>(
    range: Range<u16>,
    repo_key: &str,
    slug: &str,
    names: &Vec<String>,
    taken: &HashSet<u16>,
    is_free: F,
) -> (r: Result<Vec<(String, u16)>, PortsError>)
    requires
        range.start <= range.end,
        names@.len() > STRIDE || range.start + names@.len() <= 65536,
        forall|p: u16| is_free.requires((p,)),
    ensures
        allocation_result(range.start, range.end, repo_key@, slug@, crate::text::texts(names@), taken@, is_free, r),
{
    allocate_within(range, repo_key, slug, names, taken, is_free)
}

/// A block for this instance when nothing is promised elsewhere.
pub fn allocate<F: Fn(u16) -> bool>(
    range: Range<u16>,
    repo_key: &str,
    slug: &str,
    names: &Vec<String>,
    is_free: F,
) -> (r: Result<Vec<(String, u16)>, PortsError>)
    requires
        range.start <= range.end,
        names@.len() > STRIDE || range.start + names@.len() <= 65536,
        forall|p: u16| is_free.requires((p,)),
    ensures
        allocation_result(range.start, range.end, repo_key@, slug@, crate::text::texts(names@), Set::empty(), is_free, r),
{
    let taken: HashSet<u16> = HashSet::new();
    allocate_avoiding(range, repo_key, slug, names, &taken, is_free)
}

} // verus!
