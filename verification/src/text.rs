//! Character-level helpers shared by the modules that build or take apart strings.
//!
//! Strings are reasoned about through their views, sequences of `char`. The two
//! conversions at the top are the only places a `String` is taken apart or put
//! together; everything else works on `Vec<char>` and is proved.

use vstd::prelude::*;
use vstd::string::StringExecFns;

verus! {

/// The characters of `s`, in order.
pub(crate) fn chars_of(s: &str) -> (v: Vec<char>)
    ensures
        v@ == s@,
{
    broadcast use vstd::string::axiom_spec_iter;
    let mut v: Vec<char> = Vec::new();
    for c in it: s.chars()
        invariant
            it.seq() == s@,
            v@ == it.seq().subrange(0, it.index() as int),
    {
        v.push(c);
    }
    v
}

/// A `String` holding exactly the characters of `v`. Collects through `String`'s
/// `FromIterator<&char>`.
#[verifier::external_body]
pub(crate) fn string_of(v: &Vec<char>) -> (s: String)
    ensures
        s@ == v@,
{
    v.iter().collect()
}

/// A fresh `String` with the characters of `s`.
pub(crate) fn owned(s: &str) -> (r: String)
    ensures
        r@ == s@,
{
    s.to_owned()
}

/// `a` followed by `b`.
pub(crate) fn push_text(a: &mut String, b: &str)
    ensures
        final(a)@ == old(a)@ + b@,
{
    a.append(b);
}

/// What `str::to_uppercase` makes of `s`: each character replaced by its Unicode
/// uppercase mapping.
pub uninterp spec fn uppercase_of(s: Seq<char>) -> Seq<char>;

/// `str::to_uppercase`. Its result is named, not stated: the Unicode case tables it
/// applies are not written out here.
#[verifier::external_body]
pub(crate) fn to_upper(s: &str) -> (r: String)
    ensures
        r@ == uppercase_of(s@),
{
    s.to_uppercase()
}

/// Optional characters, seen through their views.
pub open spec fn opt_chars(o: Option<Vec<char>>) -> Option<Seq<char>> {
    match o {
        Some(v) => Some(v@),
        None => None,
    }
}

/// Optional string, seen through its view.
pub open spec fn opt_text(o: Option<String>) -> Option<Seq<char>> {
    match o {
        Some(s) => Some(s@),
        None => None,
    }
}

/// Copy an optional string.
pub fn copy_opt(o: &Option<String>) -> (r: Option<String>)
    ensures
        opt_text(r) == opt_text(*o),
{
    match o {
        Some(s) => Some(s.clone()),
        None => None,
    }
}

/// Copy a list of strings.
pub fn copy_strings(v: &Vec<String>) -> (r: Vec<String>)
    ensures
        r@.len() == v@.len(),
        forall|i: int| 0 <= i < v@.len() ==> #[trigger] r@[i]@ == v@[i]@,
{
    let mut r: Vec<String> = Vec::new();
    let mut i: usize = 0;
    while i < v.len()
        invariant
            i <= v.len(),
            r@.len() == i,
            forall|j: int| 0 <= j < i ==> #[trigger] r@[j]@ == v@[j]@,
        decreases v.len() - i,
    {
        r.push(v[i].clone());
        i += 1;
    }
    r
}

/// The views of a list of strings.
pub open spec fn texts(v: Seq<String>) -> Seq<Seq<char>> {
    Seq::new(v.len(), |i: int| v[i]@)
}

/// The decimal digit for `d`.
pub open spec fn digit_char(d: nat) -> char {
    if d == 0 { '0' } else if d == 1 { '1' } else if d == 2 { '2' } else if d == 3 { '3' }
    else if d == 4 { '4' } else if d == 5 { '5' } else if d == 6 { '6' } else if d == 7 { '7' }
    else if d == 8 { '8' } else { '9' }
}

/// `n` written in decimal, as `Display` writes it.
pub open spec fn decimal(n: nat) -> Seq<char>
    decreases n,
{
    if n < 10 {
        seq![digit_char(n)]
    } else {
        decimal(n / 10).push(digit_char(n % 10))
    }
}

pub(crate) fn digit_exec(d: u64) -> (c: char)
    requires
        d < 10,
    ensures
        c == digit_char(d as nat),
{
    if d == 0 { '0' } else if d == 1 { '1' } else if d == 2 { '2' } else if d == 3 { '3' }
    else if d == 4 { '4' } else if d == 5 { '5' } else if d == 6 { '6' } else if d == 7 { '7' }
    else if d == 8 { '8' } else { '9' }
}

pub fn decimal_chars(n: u64) -> (v: Vec<char>)
    ensures
        v@ == decimal(n as nat),
    decreases n,
{
    if n < 10 {
        let mut v: Vec<char> = Vec::new();
        v.push(digit_exec(n));
        v
    } else {
        let mut v = decimal_chars(n / 10);
        v.push(digit_exec(n % 10));
        v
    }
}

/// `n` in decimal.
pub fn decimal_text(n: u64) -> (s: String)
    ensures
        s@ == decimal(n as nat),
{
    let v = decimal_chars(n);
    string_of(&v)
}

/// A signed number in decimal, with a leading `-` when negative.
pub open spec fn signed_decimal(n: int) -> Seq<char> {
    if n < 0 { seq!['-'] + decimal((-n) as nat) } else { decimal(n as nat) }
}

pub fn signed_text(n: i64) -> (s: String)
    ensures
        s@ == signed_decimal(n as int),
{
    if n < 0 {
        let magnitude: u64 = if n == i64::MIN { 9223372036854775808u64 } else { (-n) as u64 };
        let mut v: Vec<char> = Vec::new();
        v.push('-');
        let d = decimal_chars(magnitude);
        let mut i: usize = 0;
        while i < d.len()
            invariant
                i <= d.len(),
                v@ == seq!['-'] + d@.subrange(0, i as int),
            decreases d.len() - i,
        {
            v.push(d[i]);
            i += 1;
        }
        assert(d@.subrange(0, d@.len() as int) == d@);
        string_of(&v)
    } else {
        decimal_text(n as u64)
    }
}

/// A lowercase hexadecimal digit.
pub open spec fn hex_char(d: nat) -> char {
    if d < 10 { digit_char(d) } else if d == 10 { 'a' } else if d == 11 { 'b' } else if d == 12 { 'c' }
    else if d == 13 { 'd' } else if d == 14 { 'e' } else { 'f' }
}

/// The last `count` hexadecimal digits of `n`, zero-padded.
pub open spec fn hex_digits(n: nat, count: nat) -> Seq<char>
    decreases count,
{
    if count == 0 {
        Seq::empty()
    } else {
        hex_digits(n / 16, (count - 1) as nat).push(hex_char(n % 16))
    }
}

fn hex_exec(d: u32) -> (c: char)
    requires
        d < 16,
    ensures
        c == hex_char(d as nat),
{
    if d < 10 { digit_exec(d as u64) } else if d == 10 { 'a' } else if d == 11 { 'b' } else if d == 12 { 'c' }
    else if d == 13 { 'd' } else if d == 14 { 'e' } else { 'f' }
}

fn hex_digits_exec(n: u32, count: u32) -> (v: Vec<char>)
    ensures
        v@ == hex_digits(n as nat, count as nat),
    decreases count,
{
    if count == 0 {
        Vec::new()
    } else {
        let mut v = hex_digits_exec(n / 16, count - 1);
        v.push(hex_exec(n % 16));
        v
    }
}

/// `n` as eight lowercase hexadecimal digits, the way `{:08x}` writes a `u32`.
pub fn hex8(n: u32) -> (v: Vec<char>)
    ensures
        v@ == hex_digits(n as nat, 8),
{
    hex_digits_exec(n, 8)
}

/// Append the characters of `b` to `a`.
pub fn extend_chars(a: &mut Vec<char>, b: &Vec<char>)
    ensures
        final(a)@ == old(a)@ + b@,
{
    let mut i: usize = 0;
    let ghost start = a@;
    while i < b.len()
        invariant
            i <= b.len(),
            a@ == start + b@.subrange(0, i as int),
        decreases b.len() - i,
    {
        a.push(b[i]);
        i += 1;
    }
    assert(b@.subrange(0, b@.len() as int) == b@);
}

/// `p` begins with `q`.
pub open spec fn starts_with(p: Seq<char>, q: Seq<char>) -> bool {
    q.len() <= p.len() && p.subrange(0, q.len() as int) == q
}

pub fn has_prefix(p: &Vec<char>, q: &Vec<char>) -> (r: bool)
    ensures
        r == starts_with(p@, q@),
{
    if q.len() > p.len() {
        return false;
    }
    let mut i: usize = 0;
    while i < q.len()
        invariant
            q.len() <= p.len(),
            i <= q.len(),
            forall|j: int| 0 <= j < i ==> p@[j] == q@[j],
        decreases q.len() - i,
    {
        if p[i] != q[i] {
            assert(p@.subrange(0, q@.len() as int)[i as int] != q@[i as int]);
            return false;
        }
        i += 1;
    }
    assert(p@.subrange(0, q@.len() as int) =~= q@);
    true
}

/// The characters of `p` from `from` to `to`.
pub fn slice_chars(p: &Vec<char>, from: usize, to: usize) -> (r: Vec<char>)
    requires
        from <= to <= p.len(),
    ensures
        r@ == p@.subrange(from as int, to as int),
{
    let mut r: Vec<char> = Vec::new();
    let mut i: usize = from;
    while i < to
        invariant
            from <= i <= to,
            to <= p.len(),
            r@ == p@.subrange(from as int, i as int),
        decreases to - i,
    {
        r.push(p[i]);
        i += 1;
    }
    r
}

/// The whitespace `char::is_whitespace` recognises (Unicode White_Space).
pub open spec fn is_space(c: char) -> bool {
    ||| ('\t' <= c && c <= '\r')
    ||| c == ' '
    ||| c == '\u{85}'
    ||| c == '\u{a0}'
    ||| c == '\u{1680}'
    ||| ('\u{2000}' <= c && c <= '\u{200a}')
    ||| c == '\u{2028}'
    ||| c == '\u{2029}'
    ||| c == '\u{202f}'
    ||| c == '\u{205f}'
    ||| c == '\u{3000}'
}

pub fn is_space_exec(c: char) -> (r: bool)
    ensures
        r == is_space(c),
{
    ('\t' <= c && c <= '\r') || c == ' ' || c == '\u{85}' || c == '\u{a0}' || c == '\u{1680}'
        || ('\u{2000}' <= c && c <= '\u{200a}') || c == '\u{2028}' || c == '\u{2029}'
        || c == '\u{202f}' || c == '\u{205f}' || c == '\u{3000}'
}

/// `p` without leading whitespace.
pub open spec fn trim_start(p: Seq<char>) -> Seq<char>
    decreases p.len(),
{
    if p.len() > 0 && is_space(p[0]) {
        trim_start(p.drop_first())
    } else {
        p
    }
}

/// `p` without trailing whitespace.
pub open spec fn trim_end(p: Seq<char>) -> Seq<char>
    decreases p.len(),
{
    if p.len() > 0 && is_space(p.last()) {
        trim_end(p.drop_last())
    } else {
        p
    }
}

/// `p` without whitespace at either end, as `str::trim` gives it.
pub open spec fn trim(p: Seq<char>) -> Seq<char> {
    trim_end(trim_start(p))
}

proof fn lemma_trim_start_skip(p: Seq<char>, i: int)
    requires
        0 <= i <= p.len(),
        forall|j: int| 0 <= j < i ==> is_space(#[trigger] p[j]),
    ensures
        trim_start(p) == trim_start(p.subrange(i, p.len() as int)),
    decreases i,
{
    if i > 0 {
        assert(is_space(p[0]));
        lemma_trim_start_skip(p.drop_first(), i - 1);
        assert(p.drop_first().subrange(i - 1, p.drop_first().len() as int) =~= p.subrange(i, p.len() as int));
    } else {
        assert(p.subrange(0, p.len() as int) =~= p);
    }
}

proof fn lemma_trim_end_cut(p: Seq<char>, e: int)
    requires
        0 <= e <= p.len(),
        forall|j: int| e <= j < p.len() ==> is_space(#[trigger] p[j]),
    ensures
        trim_end(p) == trim_end(p.subrange(0, e)),
    decreases p.len() - e,
{
    if e < p.len() {
        assert(is_space(p.last()));
        lemma_trim_end_cut(p.drop_last(), e);
        assert(p.drop_last().subrange(0, e) =~= p.subrange(0, e));
    } else {
        assert(p.subrange(0, e) =~= p);
    }
}

/// `p` without whitespace at either end.
pub fn trim_chars(p: &Vec<char>) -> (r: Vec<char>)
    ensures
        r@ == trim(p@),
{
    let mut s: usize = 0;
    while s < p.len() && is_space_exec(p[s])
        invariant
            s <= p.len(),
            forall|j: int| 0 <= j < s ==> is_space(#[trigger] p@[j]),
        decreases p.len() - s,
    {
        s += 1;
    }
    proof { lemma_trim_start_skip(p@, s as int); }
    let ghost rest = p@.subrange(s as int, p@.len() as int);
    assert(rest.len() == 0 || !is_space(rest[0]));
    assert(trim_start(rest) == rest);
    let mut e: usize = p.len();
    while e > s && is_space_exec(p[e - 1])
        invariant
            s <= e <= p.len(),
            forall|j: int| e <= j < p.len() ==> is_space(#[trigger] p@[j]),
        decreases e,
    {
        e -= 1;
    }
    let r = slice_chars(p, s, e);
    proof {
        lemma_trim_end_cut(rest, e - s);
        assert(rest.subrange(0, e - s) =~= r@);
        assert(r@.len() == 0 || !is_space(r@.last()));
        assert(trim_end(r@) == r@);
    }
    r
}

/// `s` without whitespace at either end (`str::trim`).
pub fn trim_text(s: &str) -> (r: String)
    ensures
        r@ == trim(s@),
{
    let v = chars_of(s);
    let t = trim_chars(&v);
    string_of(&t)
}

/// The views of a list of character vectors.
pub open spec fn char_rows(v: Seq<Vec<char>>) -> Seq<Seq<char>> {
    Seq::new(v.len(), |i: int| v[i]@)
}

/// `t` cut at every `'\n'`, as `str::split('\n')` cuts it: always at least one piece.
pub open spec fn pieces(t: Seq<char>) -> Seq<Seq<char>>
    decreases t.len(),
{
    if t.len() == 0 {
        seq![Seq::empty()]
    } else if t.last() == '\n' {
        pieces(t.drop_last()).push(Seq::empty())
    } else {
        let p = pieces(t.drop_last());
        if p.len() == 0 {
            seq![seq![t.last()]]
        } else {
            p.update(p.len() - 1, p.last().push(t.last()))
        }
    }
}

pub proof fn lemma_pieces_nonempty(t: Seq<char>)
    ensures
        pieces(t).len() >= 1,
    decreases t.len(),
{
    if t.len() > 0 {
        lemma_pieces_nonempty(t.drop_last());
    }
}

/// A line that ended in `"\r\n"` loses its `'\r'`.
pub open spec fn strip_cr(l: Seq<char>) -> Seq<char> {
    if l.len() > 0 && l.last() == '\r' { l.drop_last() } else { l }
}

/// The lines of `t` as `str::lines` yields them: cut at `'\n'`, a `'\r'` just before
/// a `'\n'` dropped, and no empty line after a final `'\n'`.
pub open spec fn lines(t: Seq<char>) -> Seq<Seq<char>> {
    let p = pieces(t);
    let done = Seq::new((p.len() - 1) as nat, |j: int| strip_cr(p[j]));
    if p.last().len() == 0 { done } else { done.push(p.last()) }
}

fn strip_cr_exec(l: Vec<char>) -> (r: Vec<char>)
    ensures
        r@ == strip_cr(l@),
{
    let mut l = l;
    if l.len() > 0 && l[l.len() - 1] == '\r' {
        l.pop();
    }
    l
}

/// The lines of `t`.
pub fn split_lines(t: &Vec<char>) -> (r: Vec<Vec<char>>)
    ensures
        char_rows(r@) == lines(t@),
{
    let mut done: Vec<Vec<char>> = Vec::new();
    let mut cur: Vec<char> = Vec::new();
    let mut i: usize = 0;
    proof { assert(t@.subrange(0, 0) =~= Seq::<char>::empty()); }
    while i < t.len()
        invariant
            i <= t.len(),
            ({
                let p = pieces(t@.subrange(0, i as int));
                &&& p.len() == done@.len() + 1
                &&& p.last() == cur@
                &&& forall|j: int| 0 <= j < done@.len() ==> #[trigger] done@[j]@ == strip_cr(p[j])
            }),
        decreases t.len() - i,
    {
        let ghost before = t@.subrange(0, i as int);
        proof { lemma_pieces_nonempty(before); }
        assert(t@.subrange(0, i + 1).drop_last() =~= before);
        if t[i] == '\n' {
            let finished = strip_cr_exec(cur);
            done.push(finished);
            cur = Vec::new();
        } else {
            cur.push(t[i]);
        }
        i += 1;
    }
    assert(t@.subrange(0, t@.len() as int) =~= t@);
    proof { lemma_pieces_nonempty(t@); }
    if cur.len() > 0 {
        done.push(cur);
    }
    assert(char_rows(done@) =~= lines(t@));
    done
}

/// `c` is an ASCII digit.
pub open spec fn is_digit(c: char) -> bool {
    '0' <= c && c <= '9'
}

/// Every character of `d` is an ASCII digit.
pub open spec fn all_digits(d: Seq<char>) -> bool {
    forall|i: int| 0 <= i < d.len() ==> is_digit(#[trigger] d[i])
}

/// The number the digits `d` spell in decimal.
pub open spec fn digits_value(d: Seq<char>) -> nat
    decreases d.len(),
{
    if d.len() == 0 {
        0
    } else {
        digits_value(d.drop_last()) * 10 + ((d.last() as u32) - ('0' as u32)) as nat
    }
}

/// An unsigned integer read the way `str::parse` reads one: an optional `+`, then one
/// or more ASCII digits, and a value no greater than `max`.
pub open spec fn parse_uint(s: Seq<char>, max: nat) -> Option<nat> {
    let d = if s.len() > 0 && s[0] == '+' { s.drop_first() } else { s };
    if d.len() == 0 || !all_digits(d) || digits_value(d) > max {
        None
    } else {
        Some(digits_value(d))
    }
}

proof fn lemma_digits_grow(d: Seq<char>, k: int)
    requires
        0 <= k <= d.len(),
        all_digits(d),
    ensures
        digits_value(d.subrange(0, k)) <= digits_value(d),
    decreases d.len() - k,
{
    if k < d.len() {
        lemma_digits_grow(d, k + 1);
        assert(d.subrange(0, k + 1).drop_last() =~= d.subrange(0, k));
        assert(is_digit(d[k]));
    } else {
        assert(d.subrange(0, k) =~= d);
    }
}

/// Read an unsigned integer no greater than `max` from `s`, as `str::parse` does.
pub fn parse_uint_chars(s: &Vec<char>, max: u64) -> (r: Option<u64>)
    ensures
        match r {
            Some(v) => parse_uint(s@, max as nat) == Some(v as nat),
            None => parse_uint(s@, max as nat) is None,
        },
{
    let start: usize = if s.len() > 0 && s[0] == '+' { 1 } else { 0 };
    let ghost d = if s@.len() > 0 && s@[0] == '+' { s@.drop_first() } else { s@ };
    assert(d =~= s@.subrange(start as int, s@.len() as int));
    if start == s.len() {
        return None;
    }
    let mut acc: u64 = 0;
    let mut i: usize = start;
    while i < s.len()
        invariant
            start <= i <= s.len(),
            d =~= s@.subrange(start as int, s@.len() as int),
            d == (if s@.len() > 0 && s@[0] == '+' { s@.drop_first() } else { s@ }),
            d.len() > 0,
            all_digits(d.subrange(0, i - start)),
            acc as nat == digits_value(d.subrange(0, i - start)),
            acc <= max,
        decreases s.len() - i,
    {
        let c = s[i];
        if !('0' <= c && c <= '9') {
            assert(!is_digit(d[i - start]));
            assert(!all_digits(d));
            return None;
        }
        let digit: u64 = ((c as u32) - ('0' as u32)) as u64;
        assert(d.subrange(0, i + 1 - start).drop_last() =~= d.subrange(0, i - start));
        assert(all_digits(d.subrange(0, i + 1 - start)));
        if digit > max || acc > (max - digit) / 10 {
            proof {
                assert(digits_value(d.subrange(0, i + 1 - start)) == acc * 10 + digit);
                assert(acc * 10 + digit > max) by (nonlinear_arith)
                    requires digit > max || acc > (max - digit) / 10, acc >= 0;
                if all_digits(d) {
                    lemma_digits_grow(d, i + 1 - start);
                }
            }
            return None;
        }
        proof {
            assert(acc * 10 + digit <= max) by (nonlinear_arith)
                requires acc <= (max - digit) / 10, digit <= 9;
        }
        acc = acc * 10 + digit;
        i += 1;
    }
    assert(d.subrange(0, d.len() as int) =~= d);
    Some(acc)
}

/// The text before and after the first `sep`, if there is one (`str::split_once`).
pub open spec fn split_once(p: Seq<char>, sep: char) -> Option<(Seq<char>, Seq<char>)> {
    if exists|i: int| 0 <= i < p.len() && p[i] == sep {
        let i = choose|i: int| 0 <= i < p.len() && p[i] == sep && forall|j: int| 0 <= j < i ==> p[j] != sep;
        Some((p.subrange(0, i), p.subrange(i + 1, p.len() as int)))
    } else {
        None
    }
}

/// Position of the first `sep` in `p`.
pub fn find_char(p: &Vec<char>, sep: char) -> (r: Option<usize>)
    ensures
        match r {
            Some(i) => i < p.len() && p@[i as int] == sep && forall|j: int| 0 <= j < i ==> p@[j] != sep,
            None => forall|j: int| 0 <= j < p.len() ==> p@[j] != sep,
        },
{
    let mut i: usize = 0;
    while i < p.len()
        invariant
            i <= p.len(),
            forall|j: int| 0 <= j < i ==> p@[j] != sep,
        decreases p.len() - i,
    {
        if p[i] == sep {
            return Some(i);
        }
        i += 1;
    }
    None
}

/// Cut `p` at its first `sep`.
pub fn split_once_chars(p: &Vec<char>, sep: char) -> (r: Option<(Vec<char>, Vec<char>)>)
    ensures
        match r {
            Some((a, b)) => split_once(p@, sep) == Some((a@, b@)),
            None => split_once(p@, sep) is None,
        },
{
    match find_char(p, sep) {
        None => None,
        Some(i) => {
            let ghost k = choose|k: int| 0 <= k < p@.len() && p@[k] == sep && forall|j: int| 0 <= j < k ==> p@[j] != sep;
            assert(p@[i as int] == sep);
            proof {
                if k < i as int { assert(p@[k] != sep); }
                if k > i as int { assert(p@[i as int] != sep); }
            }
            let a = slice_chars(p, 0, i);
            let b = slice_chars(p, i + 1, p.len());
            Some((a, b))
        }
    }
}

/// `rel` appended to `base` as `Path::join` appends it: an absolute `rel` replaces
/// `base`, otherwise the two are joined by one `/` unless `base` is empty or already
/// ends in one.
pub open spec fn join_path(base: Seq<char>, rel: Seq<char>) -> Seq<char> {
    if rel.len() > 0 && rel[0] == '/' {
        rel
    } else if base.len() == 0 || base.last() == '/' {
        base + rel
    } else {
        base + seq!['/'] + rel
    }
}

/// `base` joined with `rel`.
pub fn join(base: &str, rel: &str) -> (r: String)
    ensures
        r@ == join_path(base@, rel@),
{
    let b = chars_of(base);
    let x = chars_of(rel);
    if x.len() > 0 && x[0] == '/' {
        return owned(rel);
    }
    let mut r = owned(base);
    if !(b.len() == 0 || b[b.len() - 1] == '/') {
        push_text(&mut r, "/");
        proof { reveal_strlit("/"); }
    }
    push_text(&mut r, rel);
    r
}

/// `t` cut at every `sep`, as `str::split` cuts it: always at least one piece.
pub open spec fn split_by(t: Seq<char>, sep: char) -> Seq<Seq<char>>
    decreases t.len(),
{
    if t.len() == 0 {
        seq![Seq::empty()]
    } else if t.last() == sep {
        split_by(t.drop_last(), sep).push(Seq::empty())
    } else {
        let p = split_by(t.drop_last(), sep);
        if p.len() == 0 {
            seq![seq![t.last()]]
        } else {
            p.update(p.len() - 1, p.last().push(t.last()))
        }
    }
}

pub proof fn lemma_split_nonempty(t: Seq<char>, sep: char)
    ensures
        split_by(t, sep).len() >= 1,
    decreases t.len(),
{
    if t.len() > 0 {
        lemma_split_nonempty(t.drop_last(), sep);
    }
}

/// The pieces of `t` between each `sep`.
pub fn split_chars(t: &Vec<char>, sep: char) -> (r: Vec<Vec<char>>)
    ensures
        char_rows(r@) == split_by(t@, sep),
{
    let mut done: Vec<Vec<char>> = Vec::new();
    let mut cur: Vec<char> = Vec::new();
    let mut i: usize = 0;
    proof { assert(t@.subrange(0, 0) =~= Seq::<char>::empty()); }
    while i < t.len()
        invariant
            i <= t.len(),
            char_rows(done@).push(cur@) == split_by(t@.subrange(0, i as int), sep),
        decreases t.len() - i,
    {
        let ghost before = t@.subrange(0, i as int);
        proof { lemma_split_nonempty(before, sep); }
        assert(t@.subrange(0, i + 1).drop_last() =~= before);
        if t[i] == sep {
            done.push(cur);
            cur = Vec::new();
            assert(char_rows(done@).push(cur@) =~= split_by(before, sep).push(Seq::empty()));
        } else {
            let ghost old_cur = cur@;
            cur.push(t[i]);
            assert(char_rows(done@).push(cur@) =~= split_by(before, sep).update(
                split_by(before, sep).len() - 1, old_cur.push(t@[i as int])));
        }
        i += 1;
    }
    assert(t@.subrange(0, t@.len() as int) =~= t@);
    done.push(cur);
    done
}

/// The ASCII lowercase of `c`; other characters are left alone.
pub open spec fn ascii_lower(c: char) -> char {
    if 'A' <= c && c <= 'Z' { ((c as u32) + 32) as char } else { c }
}

/// `p` with its ASCII letters lowercased, as `str::to_ascii_lowercase` gives it.
pub open spec fn lower_all(p: Seq<char>) -> Seq<char> {
    Seq::new(p.len(), |i: int| ascii_lower(p[i]))
}

pub fn lower_chars(p: &Vec<char>) -> (r: Vec<char>)
    ensures
        r@ == lower_all(p@),
{
    let mut r: Vec<char> = Vec::new();
    let mut i: usize = 0;
    while i < p.len()
        invariant
            i <= p.len(),
            r@ == lower_all(p@).subrange(0, i as int),
        decreases p.len() - i,
    {
        let c = p[i];
        let l = if 'A' <= c && c <= 'Z' { ((c as u8) + 32) as char } else { c };
        r.push(l);
        i += 1;
    }
    assert(r@ =~= lower_all(p@));
    r
}

/// What `{:?}` writes for a string: the string in double quotes, with quotes,
/// backslashes, control characters and the characters Unicode does not print escaped.
pub uninterp spec fn debug_of(s: Seq<char>) -> Seq<char>;

/// `p` as `{:?}` writes it.
pub open spec fn quoted(p: Seq<char>) -> Seq<char> {
    debug_of(p)
}

/// `s` as `{:?}` writes it, through `str`'s `Debug`. Its result is named, not
/// stated: the escape rules depend on Unicode tables that are not written out here.
#[verifier::external_body]
pub(crate) fn quote(s: &str) -> (r: String)
    ensures
        r@ == debug_of(s@),
{
    format!("{:?}", s)
}

/// `q` occurs somewhere in `p`.
pub open spec fn contains_text(p: Seq<char>, q: Seq<char>) -> bool {
    exists|i: int| 0 <= i && i + q.len() <= p.len() && #[trigger] p.subrange(i, i + q.len()) == q
}

/// Whether `q` occurs in `p` (`str::contains`).
pub fn has_text(p: &str, q: &str) -> (r: bool)
    ensures
        r == contains_text(p@, q@),
{
    let a = chars_of(p);
    let b = chars_of(q);
    if b.len() > a.len() {
        return false;
    }
    let mut i: usize = 0;
    while i <= a.len() - b.len()
        invariant
            a@ == p@,
            b@ == q@,
            b.len() <= a.len(),
            i <= a.len() - b.len() + 1,
            forall|k: int| 0 <= k < i ==> #[trigger] p@.subrange(k, k + q@.len()) != q@,
        decreases a.len() - i,
    {
        let mut j: usize = 0;
        while j < b.len() && a[i + j] == b[j]
            invariant
                i + b.len() <= a.len(),
                j <= b.len(),
                forall|m: int| 0 <= m < j ==> a@[i + m] == b@[m],
            decreases b.len() - j,
        {
            j += 1;
        }
        if j == b.len() {
            assert(a@.subrange(i as int, i + b@.len()) =~= b@);
            return true;
        }
        assert(a@.subrange(i as int, i + b@.len())[j as int] != b@[j as int]);
        i += 1;
    }
    false
}

/// The named parts of a path, as `Path::components` yields them: the pieces between
/// slashes, without the empty ones (repeated or trailing slashes) and without `.`.
pub open spec fn path_parts(pieces: Seq<Seq<char>>) -> Seq<Seq<char>>
    decreases pieces.len(),
{
    if pieces.len() == 0 {
        Seq::empty()
    } else {
        let rest = path_parts(pieces.drop_last());
        let last = pieces.last();
        if last.len() == 0 || last == seq!['.'] { rest } else { rest.push(last) }
    }
}

/// The path starts at the root.
pub open spec fn is_absolute(p: Seq<char>) -> bool {
    p.len() > 0 && p[0] == '/'
}

/// A relative path that starts with `.`, which `Path::components` keeps.
pub open spec fn leading_dot(p: Seq<char>) -> bool {
    !is_absolute(p) && split_by(p, '/')[0] == seq!['.']
}

/// Two paths are equal as `Path` compares them: component by component, so a
/// trailing slash, a doubled slash or a `.` in the middle makes no difference.
pub open spec fn same_path(a: Seq<char>, b: Seq<char>) -> bool {
    &&& is_absolute(a) == is_absolute(b)
    &&& leading_dot(a) == leading_dot(b)
    &&& path_parts(split_by(a, '/')) == path_parts(split_by(b, '/'))
}

fn path_parts_exec(p: &str) -> (r: (bool, bool, Vec<Vec<char>>))
    ensures
        r.0 == is_absolute(p@),
        r.1 == leading_dot(p@),
        char_rows(r.2@) == path_parts(split_by(p@, '/')),
{
    let cs = chars_of(p);
    let pieces = split_chars(&cs, '/');
    proof { lemma_split_nonempty(cs@, '/'); }
    let absolute = cs.len() > 0 && cs[0] == '/';
    let first = &pieces[0];
    let dot = !absolute && first.len() == 1 && first[0] == '.';
    assert(char_rows(pieces@)[0] == pieces@[0]@);
    assert(dot == leading_dot(p@)) by {
        if first@ == seq!['.'] { assert(first@.len() == 1 && first@[0] == '.'); }
        if first.len() == 1 && first[0] == '.' { assert(first@ =~= seq!['.']); }
    }
    let mut kept: Vec<Vec<char>> = Vec::new();
    let mut i: usize = 0;
    while i < pieces.len()
        invariant
            i <= pieces.len(),
            char_rows(kept@) == path_parts(char_rows(pieces@).subrange(0, i as int)),
        decreases pieces.len() - i,
    {
        let ghost rows = char_rows(pieces@).subrange(0, i + 1);
        assert(rows.drop_last() =~= char_rows(pieces@).subrange(0, i as int));
        assert(rows.last() == pieces@[i as int]@);
        let piece = &pieces[i];
        let is_dot = piece.len() == 1 && piece[0] == '.';
        assert(is_dot == (piece@ == seq!['.'])) by {
            if piece@ == seq!['.'] { assert(piece@.len() == 1 && piece@[0] == '.'); }
            if is_dot { assert(piece@ =~= seq!['.']); }
        }
        if piece.len() > 0 && !is_dot {
            let ghost before = kept@;
            kept.push(piece.clone());
            assert(char_rows(kept@) =~= char_rows(before).push(piece@));
        }
        i += 1;
    }
    assert(char_rows(pieces@).subrange(0, pieces@.len() as int) =~= char_rows(pieces@));
    (absolute, dot, kept)
}

/// Whether `a` and `b` name the same path, component by component.
pub fn same_path_exec(a: &str, b: &str) -> (r: bool)
    ensures
        r == same_path(a@, b@),
{
    let (aa, ad, ap) = path_parts_exec(a);
    let (ba, bd, bp) = path_parts_exec(b);
    if aa != ba || ad != bd || ap.len() != bp.len() {
        proof {
            if ap.len() != bp.len() { assert(char_rows(ap@).len() != char_rows(bp@).len()); }
        }
        return false;
    }
    let mut i: usize = 0;
    while i < ap.len()
        invariant
            i <= ap.len(),
            ap.len() == bp.len(),
            char_rows(ap@) == path_parts(split_by(a@, '/')),
            char_rows(bp@) == path_parts(split_by(b@, '/')),
            forall|j: int| 0 <= j < i ==> ap@[j]@ == bp@[j]@,
        decreases ap.len() - i,
    {
        let x = string_of(&ap[i]);
        let y = string_of(&bp[i]);
        if crate::table::compare_text(x.as_str(), y.as_str()) != 0 {
            assert(char_rows(ap@)[i as int] == ap@[i as int]@);
            assert(char_rows(bp@)[i as int] == bp@[i as int]@);
            assert(char_rows(ap@) != char_rows(bp@));
            return false;
        }
        i += 1;
    }
    assert(char_rows(ap@) =~= char_rows(bp@));
    true
}

} // verus!
