//! How much disk a worktree's git-ignored files take — the dependency trees `setup`
//! installs, which is the cost `down` does not reclaim — as a person reads it.
//!
//! The application walks the tree, never through a symlink and never into a
//! virtualenv, and hands over what it found of each file; what is charged for them is
//! decided here, and the figure is printed the way `du -h` prints sizes.

use vstd::prelude::*;
use std::collections::HashSet;
use crate::text::{decimal, decimal_chars, digit_char, string_of};

verus! {

broadcast use vstd::std_specs::hash::group_hash_axioms;

/// What the walk found of one file: the device and inode that identify it, how many
/// names it has, and the 512-byte blocks allocated to it.
#[derive(Debug, Clone, Copy)]
pub struct FileBlocks {
    pub dev: u64,
    pub ino: u64,
    pub nlink: u64,
    pub blocks: u64,
}

/// One number for a (device, inode) pair, distinct for distinct pairs.
pub open spec fn file_key(dev: u64, ino: u64) -> u128 {
    (dev as int * 0x1_0000_0000_0000_0000 + ino as int) as u128
}

/// A file with several names that an earlier file of the walk already named.
pub open spec fn named_before(files: Seq<FileBlocks>, i: int) -> bool {
    files[i].nlink > 1 && exists|j: int| 0 <= j < i && files[j].nlink > 1
        && #[trigger] files[j].dev == files[i].dev && files[j].ino == files[i].ino
}

/// What `files` cost, in bytes: blocks rather than lengths, since a thirty-byte file
/// still occupies a block and blocks are what deleting returns; and a file reached
/// through several names once, so a tree hardlinked out of a shared store is charged
/// to the first name the walk meets.
pub open spec fn charged(files: Seq<FileBlocks>) -> nat
    decreases files.len(),
{
    if files.len() == 0 {
        0
    } else {
        let i = files.len() - 1;
        charged(files.drop_last()) + if named_before(files, i) { 0 } else { files[i].blocks as nat * 512 }
    }
}

proof fn lemma_charged_grows(files: Seq<FileBlocks>, k: int)
    requires
        0 <= k <= files.len(),
    ensures
        charged(files.subrange(0, k)) <= charged(files),
    decreases files.len() - k,
{
    if k < files.len() {
        lemma_charged_grows(files, k + 1);
        let p = files.subrange(0, k + 1);
        assert(p.drop_last() =~= files.subrange(0, k));
    } else {
        assert(files.subrange(0, k) =~= files);
    }
}

proof fn lemma_named_before_prefix(files: Seq<FileBlocks>, n: int, i: int)
    requires
        0 <= i < n <= files.len(),
    ensures
        named_before(files.subrange(0, n), i) == named_before(files, i),
{
    let sub = files.subrange(0, n);
    if named_before(sub, i) {
        let j = choose|j: int| 0 <= j < i && sub[j].nlink > 1 && #[trigger] sub[j].dev == sub[i].dev && sub[j].ino == sub[i].ino;
        assert(sub[j] == files[j]);
        assert(files[j].dev == files[i].dev);
    }
    if named_before(files, i) {
        let j = choose|j: int| 0 <= j < i && files[j].nlink > 1 && #[trigger] files[j].dev == files[i].dev && files[j].ino == files[i].ino;
        assert(sub[j] == files[j]);
        assert(sub[j].dev == sub[i].dev);
    }
}

proof fn lemma_key_distinct(d1: u64, i1: u64, d2: u64, i2: u64)
    ensures
        file_key(d1, i1) == file_key(d2, i2) ==> d1 == d2 && i1 == i2,
{
}

/// The bytes `files` cost, each file charged once however many names it has.
pub fn footprint(files: &Vec<FileBlocks>) -> (total: u64)
    requires
        charged(files@) <= u64::MAX,
    ensures
        total == charged(files@),
{
    let mut seen: HashSet<u128> = HashSet::new();
    let mut total: u64 = 0;
    let mut i: usize = 0;
    while i < files.len()
        invariant
            i <= files.len(),
            charged(files@) <= u64::MAX,
            total == charged(files@.subrange(0, i as int)),
            forall|k: u128| #[trigger] seen@.contains(k) <==> exists|j: int| 0 <= j < i && files@[j].nlink > 1
                && k == file_key(files@[j].dev, files@[j].ino),
        decreases files.len() - i,
    {
        let f = files[i];
        let ghost pre = files@.subrange(0, i + 1);
        assert(pre.drop_last() =~= files@.subrange(0, i as int));
        proof { lemma_named_before_prefix(files@, i + 1, i as int); }
        proof { lemma_charged_grows(files@, i + 1); }
        let key: u128 = (f.dev as u128) * 0x1_0000_0000_0000_0000u128 + (f.ino as u128);
        assert(key == file_key(f.dev, f.ino));
        let dup = if f.nlink > 1 {
            let fresh = seen.insert(key);
            proof {
                if !fresh {
                    let j = choose|j: int| 0 <= j < i && files@[j].nlink > 1
                        && key == file_key(files@[j].dev, files@[j].ino);
                    lemma_key_distinct(files@[j].dev, files@[j].ino, f.dev, f.ino);
                    assert(files@[j].dev == files@[i as int].dev);
                } else {
                    assert forall|j: int| 0 <= j < i && files@[j].nlink > 1
                        implies !(#[trigger] files@[j].dev == files@[i as int].dev && files@[j].ino == files@[i as int].ino) by {
                        assert(seen@.contains(file_key(files@[j].dev, files@[j].ino)));
                    }
                }
            }
            !fresh
        } else {
            false
        };
        assert(dup == named_before(files@, i as int));
        if !dup {
            total = total + f.blocks * 512;
        }
        i += 1;
    }
    assert(files@.subrange(0, files@.len() as int) =~= files@);
    total
}

/// The smallest value with 54 significant bits: a `u64` at or above it does not fit a
/// double's mantissa.
pub open spec fn mantissa_limit() -> nat {
    0x20_0000_0000_0000
}

/// The power of two `b` is counted in once it is made a double: one while `b` fits
/// the mantissa, doubled for each bit it does not.
pub open spec fn scale(b: nat) -> nat
    decreases b,
{
    if b < mantissa_limit() { 1 } else { 2 * scale(b / 2) }
}

/// `n / d` rounded to the nearest integer, ties to even.
pub open spec fn round_half_even(n: nat, d: nat) -> nat
    recommends
        d > 0,
{
    let q = n / d;
    let r = n % d;
    if 2 * r > d || (2 * r == d && q % 2 == 1) { q + 1 } else { q }
}

/// `b as f64`: the nearest double, ties to even.
pub open spec fn as_double(b: nat) -> nat {
    round_half_even(b, scale(b)) * scale(b)
}

/// `1024` to the power `k`.
pub open spec fn unit_size(k: nat) -> nat {
    if k == 0 { 1 } else if k == 1 { 1024 } else if k == 2 { 0x10_0000 } else if k == 3 { 0x4000_0000 } else { 0x100_0000_0000 }
}

/// How many times a size is divided by 1024: while it stays at least 1024, at most
/// up to terabytes.
pub open spec fn unit_of(f: nat) -> nat {
    if f >= unit_size(4) { 4 } else if f >= unit_size(3) { 3 } else if f >= unit_size(2) { 2 } else if f >= unit_size(1) { 1 } else { 0 }
}

pub open spec fn unit_letter(k: nat) -> char {
    if k == 1 { 'K' } else if k == 2 { 'M' } else if k == 3 { 'G' } else if k == 4 { 'T' } else { 'B' }
}

/// A size as `du -h` prints it, for a column read at a glance: the bytes themselves
/// under a kilobyte; otherwise one decimal while the number is a single digit, none
/// once it is not, each rounded as formatting a double rounds it.
pub open spec fn size_text(bytes: nat) -> Seq<char> {
    let f = as_double(bytes);
    let k = unit_of(f);
    if k == 0 {
        decimal(bytes) + seq!['B']
    } else if f < 10 * unit_size(k) {
        let q = round_half_even(10 * f, unit_size(k));
        decimal(q / 10) + seq!['.', digit_char(q % 10), unit_letter(k)]
    } else {
        decimal(round_half_even(f, unit_size(k))) + seq![unit_letter(k)]
    }
}

fn round_exec(n: u128, d: u128) -> (r: u128)
    requires
        d > 0,
        d <= 0x1_0000_0000_0000_0000_0000,
        n < 0x1_0000_0000_0000_0000_0000,
    ensures
        r as nat == round_half_even(n as nat, d as nat),
{
    let q = n / d;
    let r = n % d;
    if 2 * r > d || (2 * r == d && q % 2 == 1) { q + 1 } else { q }
}

fn double_exec(b: u64) -> (f: u128)
    ensures
        f as nat == as_double(b as nat),
        f <= 0x2_0000_0000_0000_0000,
{
    let mut v: u64 = b;
    let mut u: u128 = 1;
    while v >= 0x20_0000_0000_0000
        invariant
            u >= 1,
            u <= 4096,
            u * v <= b,
            v as nat == b as nat / u as nat,
            scale(b as nat) == u as nat * scale(v as nat),
        decreases v,
    {
        proof {
            vstd::arithmetic::div_mod::lemma_div_denominator(b as int, u as int, 2);
            let s = scale((v / 2) as nat);
            assert(scale(v as nat) == 2 * s);
            assert(u as nat * (2 * s) == (u as nat * 2) * s) by (nonlinear_arith);
            let (ui, vi, bi) = (u as int, v as int, b as int);
            assert(ui < 2048) by (nonlinear_arith)
                requires ui * vi <= bi, vi >= 0x20_0000_0000_0000, bi < 0x1_0000_0000_0000_0000, ui >= 1;
            assert((2 * ui) * (vi / 2) <= bi) by (nonlinear_arith)
                requires ui * vi <= bi, vi >= 0, ui >= 1;
        }
        v = v / 2;
        u = u * 2;
    }
    assert(scale(v as nat) == 1);
    proof {
        let (sb, sv, ui) = (scale(b as nat) as int, scale(v as nat) as int, u as int);
        assert(sb == ui) by (nonlinear_arith) requires sb == ui * sv, sv == 1;
    }
    let q = round_exec(b as u128, u);
    assert(q as nat == round_half_even(b as nat, scale(b as nat)));
    proof {
        let (qi, bi, ui) = (q as int, b as int, u as int);
        assert(qi <= bi / ui + 1);
        assert(qi * ui <= bi + ui) by (nonlinear_arith)
            requires qi <= bi / ui + 1, ui >= 1, bi >= 0;
    }
    q * u
}

fn unit_size_exec(k: u64) -> (d: u128)
    ensures
        d as nat == unit_size(k as nat),
{
    if k == 0 { 1 } else if k == 1 { 1024 } else if k == 2 { 0x10_0000 } else if k == 3 { 0x4000_0000 } else { 0x100_0000_0000 }
}

/// A size as `du -h` prints it: `512B`, `1.5K`, `350M`, `1.1G`.
pub fn human_size(bytes: u64) -> (s: String)
    ensures
        s@ == size_text(bytes as nat),
{
    let f = double_exec(bytes);
    let k: u64 = if f >= 0x100_0000_0000 { 4 } else if f >= 0x4000_0000 { 3 } else if f >= 0x10_0000 { 2 } else if f >= 1024 { 1 } else { 0 };
    let letter = if k == 1 { 'K' } else if k == 2 { 'M' } else if k == 3 { 'G' } else if k == 4 { 'T' } else { 'B' };
    let d = unit_size_exec(k);
    let mut v: Vec<char>;
    if k == 0 {
        v = decimal_chars(bytes);
        v.push('B');
    } else if f < 10 * d {
        let q = round_exec(10 * f, d);
        proof {
            let (fi, di) = (f as int, d as int);
            assert((10 * fi) / di <= 100) by (nonlinear_arith) requires fi < 10 * di, di > 0;
            assert(q as int <= (10 * fi) / di + 1);
        }
        v = decimal_chars((q / 10) as u64);
        v.push('.');
        v.push(crate::text::digit_exec((q % 10) as u64));
        v.push(letter);
    } else {
        let q = round_exec(f, d);
        proof {
            let (fi, di) = (f as int, d as int);
            assert(fi / di <= fi) by (nonlinear_arith) requires di >= 1, fi >= 0;
            assert(q as int <= fi / di + 1);
        }
        v = decimal_chars(q as u64);
        v.push(letter);
    }
    assert(v@ =~= size_text(bytes as nat));
    string_of(&v)
}

} // verus!
