//! Volume capacities: given as text, as a list of sizes such as `32M,32M,1G`
//! or a list of shard counts such as `100,100,50`, or derived from the set
//! where none are given.

use crate::encode::{chunk_counts, encoded_stripes, file_datas, EncoderConfig, SourceFile};
use crate::manifest::stripes_for;
use crate::order::{lemma_order_is_bijection, total_chunks};
use vstd::prelude::*;
use vstd::slice::slice_subrange;
use vstd::utf8::encode_utf8;

verus! {

/// Why a list of capacities cannot be read.
#[derive(Clone, Copy, Debug, PartialEq, Eq, Structural)]
pub enum CapacityError {
    /// Sizes were asked for in blocks of zero bytes.
    ZeroBlock,
    /// The part with this number, counted from 0, is no size or count, or
    /// one too large for the machine.
    BadPart(usize),
}

/// A space, or one of the control characters from tab to carriage return.
pub open spec fn is_blank(b: u8) -> bool {
    b == 0x20 || (0x09 <= b && b <= 0x0d)
}

/// A decimal digit.
pub open spec fn is_digit(b: u8) -> bool {
    0x30 <= b && b <= 0x39
}

/// The text without the blanks at its start.
pub open spec fn trim_start(s: Seq<u8>) -> Seq<u8>
    decreases s.len(),
{
    if s.len() > 0 && is_blank(s[0]) {
        trim_start(s.drop_first())
    } else {
        s
    }
}

/// The text without the blanks at its end.
pub open spec fn trim_end(s: Seq<u8>) -> Seq<u8>
    decreases s.len(),
{
    if s.len() > 0 && is_blank(s.last()) {
        trim_end(s.drop_last())
    } else {
        s
    }
}

/// The text without the blanks at its start and at its end.
pub open spec fn trimmed(s: Seq<u8>) -> Seq<u8> {
    trim_end(trim_start(s))
}

/// Every byte is a decimal digit.
pub open spec fn all_digits(s: Seq<u8>) -> bool {
    forall|i: int| 0 <= i < s.len() ==> is_digit(#[trigger] s[i])
}

/// The number that a run of decimal digits stands for.
pub open spec fn digits_value(s: Seq<u8>) -> nat
    decreases s.len(),
{
    if s.len() == 0 {
        0
    } else {
        10 * digits_value(s.drop_last()) + if is_digit(s.last()) {
            (s.last() - 0x30) as nat
        } else {
            0nat
        }
    }
}

/// The number that a text stands for: one or more decimal digits, with or
/// without a `+` in front. Nothing for any other text.
pub open spec fn number(s: Seq<u8>) -> Option<nat> {
    let d = if s.len() > 0 && s[0] == 0x2b {
        s.drop_first()
    } else {
        s
    };
    if d.len() > 0 && all_digits(d) {
        Some(digits_value(d))
    } else {
        None
    }
}

/// The factor that a unit letter stands for: 2^10 for `K`, 2^20 for `M`,
/// 2^30 for `G`, in either case; 0 for a byte that is no unit.
pub open spec fn unit_factor(b: u8) -> nat {
    if b == 0x4b || b == 0x6b {
        0x400
    } else if b == 0x4d || b == 0x6d {
        0x10_0000
    } else if b == 0x47 || b == 0x67 {
        0x4000_0000
    } else {
        0
    }
}

/// The number of bytes that a part of a size list stands for: a number, or a
/// number with a unit letter directly behind it; blanks around it do not
/// count.
pub open spec fn size_bytes(part: Seq<u8>) -> Option<nat> {
    let t = trimmed(part);
    if t.len() > 0 && unit_factor(t.last()) > 0 {
        match number(t.drop_last()) {
            Some(v) => Some(v * unit_factor(t.last())),
            None => None,
        }
    } else {
        number(t)
    }
}

/// Number of blocks of `block` bytes that hold `bytes` bytes, and 1 where
/// that is none.
pub open spec fn blocks_for(bytes: nat, block: nat) -> nat {
    let whole = bytes / block;
    let blocks = if bytes % block == 0 {
        whole
    } else {
        whole + 1
    };
    if blocks == 0 {
        1
    } else {
        blocks
    }
}

/// The capacity in shards that a part of a list stands for. In a list of
/// sizes, `block` is the size of a shard and the part gives a number of
/// bytes; in a list of counts the part gives the number of shards. A volume
/// takes at least one shard. Nothing where the part is no number, or gives
/// more bytes or shards than the machine can count.
pub open spec fn part_capacity(part: Seq<u8>, block: Option<nat>) -> Option<usize> {
    match block {
        Some(b) => match size_bytes(part) {
            Some(bytes) => if bytes <= usize::MAX {
                Some(blocks_for(bytes, b) as usize)
            } else {
                None
            },
            None => None,
        },
        None => match number(trimmed(part)) {
            Some(v) => if v <= usize::MAX {
                Some(
                    if v == 0 {
                        1usize
                    } else {
                        v as usize
                    },
                )
            } else {
                None
            },
            None => None,
        },
    }
}

/// The parts of a list: the runs of bytes between its commas. A list
/// without a comma has one part, which may be empty.
pub open spec fn split_commas(s: Seq<u8>) -> Seq<Seq<u8>>
    decreases s.len(),
{
    if s.len() == 0 {
        seq![Seq::empty()]
    } else {
        let before = split_commas(s.drop_last());
        if s.last() == 0x2c {
            before.push(Seq::empty())
        } else {
            before.update(before.len() - 1, before.last().push(s.last()))
        }
    }
}

/// The result is that of reading the list: the capacity of every part, in
/// the order of the list, or the number of the first part that has none.
pub open spec fn list_read(text: Seq<u8>, block: Option<nat>, r: Result<Vec<usize>, CapacityError>) -> bool {
    let parts = split_commas(text);
    match r {
        Ok(v) => {
            &&& v@.len() == parts.len()
            &&& forall|i: int|
                0 <= i < parts.len() ==> part_capacity(#[trigger] parts[i], block) == Some(v@[i])
        },
        Err(CapacityError::BadPart(i)) => {
            &&& i < parts.len()
            &&& part_capacity(parts[i as int], block) is None
            &&& forall|j: int| 0 <= j < i ==> part_capacity(#[trigger] parts[j], block) is Some
        },
        Err(CapacityError::ZeroBlock) => false,
    }
}

fn blank(b: u8) -> (r: bool)
    ensures
        r == is_blank(b),
{
    b == 0x20 || (0x09 <= b && b <= 0x0d)
}

fn trim(s: &[u8]) -> (t: &[u8])
    ensures
        t@ == trimmed(s@),
{
    let n: usize = s.len();
    let mut a: usize = 0;
    assert(s@.subrange(0, n as int) =~= s@);
    while a < n && blank(s[a])
        invariant
            a <= n,
            n == s@.len(),
            trim_start(s@) == trim_start(s@.subrange(a as int, n as int)),
        decreases n - a,
    {
        proof {
            let rest = s@.subrange(a as int, n as int);
            assert(rest[0] == s@[a as int]);
            assert(rest.drop_first() =~= s@.subrange(a + 1, n as int));
        }
        a += 1;
    }
    proof {
        let rest = s@.subrange(a as int, n as int);
        if a < n {
            assert(rest[0] == s@[a as int]);
        }
        assert(trim_start(rest) == rest);
    }
    let mut b: usize = n;
    while b > a && blank(s[b - 1])
        invariant
            a <= b <= n,
            n == s@.len(),
            trim_end(s@.subrange(a as int, n as int)) == trim_end(s@.subrange(a as int, b as int)),
        decreases b,
    {
        proof {
            let rest = s@.subrange(a as int, b as int);
            assert(rest.last() == s@[b - 1]);
            assert(rest.drop_last() =~= s@.subrange(a as int, b - 1));
        }
        b -= 1;
    }
    proof {
        let rest = s@.subrange(a as int, b as int);
        if b > a {
            assert(rest.last() == s@[b - 1]);
        }
        assert(trim_end(rest) == rest);
    }
    slice_subrange(s, a, b)
}

/// The digits read so far stand for no more than all of them.
proof fn lemma_digits_grow(d: Seq<u8>, j: int)
    requires
        0 <= j <= d.len(),
    ensures
        digits_value(d.take(j)) <= digits_value(d),
    decreases d.len() - j,
{
    if j == d.len() {
        assert(d.take(j) =~= d);
    } else {
        lemma_digits_grow(d, j + 1);
        assert(d.take(j + 1).drop_last() =~= d.take(j));
    }
}

fn read_number(s: &[u8]) -> (r: Option<usize>)
    ensures
        match r {
            Some(v) => number(s@) == Some(v as nat),
            None => number(s@) is None || number(s@)->0 > usize::MAX,
        },
{
    let n: usize = s.len();
    let start: usize = if n > 0 && s[0] == 0x2b {
        1
    } else {
        0
    };
    let ghost d = s@.subrange(start as int, n as int);
    proof {
        if start == 1 {
            assert(d =~= s@.drop_first());
        } else {
            assert(d =~= s@);
        }
    }
    if start == n {
        return None;
    }
    let mut acc: usize = 0;
    let mut i: usize = start;
    while i < n
        invariant
            start <= i <= n,
            n == s@.len(),
            d == s@.subrange(start as int, n as int),
            d.len() > 0,
            number(s@) == (if all_digits(d) {
                Some(digits_value(d))
            } else {
                None
            }),
            all_digits(d.take(i - start)),
            acc == digits_value(d.take(i - start)),
        decreases n - i,
    {
        let c: u8 = s[i];
        assert(d[i - start] == c);
        if c < 0x30 || c > 0x39 {
            return None;
        }
        let digit: usize = (c - 0x30) as usize;
        proof {
            assert(d.take(i - start + 1).drop_last() =~= d.take(i - start));
            assert(d.take(i - start + 1).last() == c);
        }
        if acc > (usize::MAX - digit) / 10 {
            proof {
                lemma_digits_grow(d, i - start + 1);
            }
            return None;
        }
        acc = acc * 10 + digit;
        i += 1;
    }
    assert(d.take(n - start) =~= d);
    Some(acc)
}

fn unit_of(b: u8) -> (f: usize)
    ensures
        f == unit_factor(b),
{
    if b == 0x4b || b == 0x6b {
        0x400
    } else if b == 0x4d || b == 0x6d {
        0x10_0000
    } else if b == 0x47 || b == 0x67 {
        0x4000_0000
    } else {
        0
    }
}

fn scaled(v: usize, factor: usize) -> (r: Option<usize>)
    requires
        factor > 0,
    ensures
        match r {
            Some(x) => x == v * factor,
            None => v * factor > usize::MAX,
        },
{
    let most: usize = usize::MAX / factor;
    if v > most {
        assert(v * factor > usize::MAX) by (nonlinear_arith)
            requires
                v >= most + 1,
                most == usize::MAX / factor,
                factor > 0,
        ;
        None
    } else {
        assert(v * factor <= usize::MAX) by (nonlinear_arith)
            requires
                v <= most,
                most == usize::MAX / factor,
                factor > 0,
        ;
        Some(v * factor)
    }
}

fn capacity_of(part: &[u8], sizes: bool, block: usize) -> (r: Option<usize>)
    requires
        sizes ==> block > 0,
    ensures
        r == part_capacity(
            part@,
            if sizes {
                Some(block as nat)
            } else {
                None
            },
        ),
{
    let t = trim(part);
    let n: usize = t.len();
    if !sizes {
        return match read_number(t) {
            None => None,
            Some(v) => Some(
                if v == 0 {
                    1
                } else {
                    v
                },
            ),
        };
    }
    let factor: usize = if n > 0 {
        unit_of(t[n - 1])
    } else {
        0
    };
    let bytes: Option<usize> = if factor > 0 {
        assert(t@.drop_last() =~= t@.subrange(0, n - 1));
        match read_number(slice_subrange(t, 0, n - 1)) {
            None => {
                proof {
                    let whole = number(t@.drop_last());
                    if whole is Some {
                        assert(whole->0 * factor >= whole->0) by (nonlinear_arith)
                            requires
                                factor >= 1,
                                whole->0 >= 0,
                        ;
                    }
                }
                None
            },
            Some(v) => scaled(v, factor),
        }
    } else {
        read_number(t)
    };
    match bytes {
        None => None,
        Some(b) => {
            let whole: usize = b / block;
            let blocks: usize = if b % block == 0 {
                whole
            } else {
                assert(whole < usize::MAX) by (nonlinear_arith)
                    requires
                        whole == b / block,
                        b % block != 0,
                        block > 0,
                        b <= usize::MAX,
                ;
                whole + 1
            };
            Some(
                if blocks == 0 {
                    1
                } else {
                    blocks
                },
            )
        },
    }
}

fn read_list(s: &[u8], sizes: bool, block: usize) -> (r: Result<Vec<usize>, CapacityError>)
    requires
        sizes ==> block > 0,
    ensures
        list_read(
            s@,
            if sizes {
                Some(block as nat)
            } else {
                None
            },
            r,
        ),
{
    let ghost unit: Option<nat> = if sizes {
        Some(block as nat)
    } else {
        None
    };
    let n: usize = s.len();
    let mut out: Vec<usize> = Vec::new();
    let mut start: usize = 0;
    let mut i: usize = 0;
    let ghost mut done: Seq<Seq<u8>> = Seq::empty();
    assert(s@.subrange(0, 0) =~= Seq::<u8>::empty());
    assert(split_commas(s@.take(0)) =~= done.push(s@.subrange(0, 0)));
    while i < n
        invariant
            start <= i <= n,
            n == s@.len(),
            sizes ==> block > 0,
            unit == (if sizes {
                Some(block as nat)
            } else {
                None
            }),
            split_commas(s@.take(i as int)) == done.push(s@.subrange(start as int, i as int)),
            out@.len() == done.len(),
            forall|j: int|
                0 <= j < done.len() ==> part_capacity(#[trigger] done[j], unit) == Some(out@[j]),
        decreases n - i,
    {
        proof {
            assert(s@.take(i + 1).drop_last() =~= s@.take(i as int));
            assert(s@.take(i + 1).last() == s@[i as int]);
        }
        if s[i] == 0x2c {
            let part = slice_subrange(s, start, i);
            match capacity_of(part, sizes, block) {
                None => {
                    proof {
                        lemma_parts_stay(s@, i as int, done.len() as int);
                    }
                    return Err(CapacityError::BadPart(out.len()));
                },
                Some(c) => {
                    out.push(c);
                },
            }
            proof {
                done = done.push(part@);
                assert(s@.subrange(i + 1, i + 1) =~= Seq::<u8>::empty());
                assert(split_commas(s@.take(i + 1)) =~= done.push(s@.subrange(i + 1, i + 1)));
            }
            start = i + 1;
        } else {
            proof {
                assert(s@.subrange(start as int, i as int).push(s@[i as int]) =~= s@.subrange(
                    start as int,
                    i + 1,
                ));
                assert(split_commas(s@.take(i + 1)) =~= done.push(
                    s@.subrange(start as int, i + 1),
                ));
            }
        }
        i += 1;
    }
    assert(s@.take(n as int) =~= s@);
    let part = slice_subrange(s, start, n);
    match capacity_of(part, sizes, block) {
        None => Err(CapacityError::BadPart(out.len())),
        Some(c) => {
            out.push(c);
            Ok(out)
        },
    }
}

/// A part that is closed by a comma stays what it is, whatever follows.
proof fn lemma_parts_stay(s: Seq<u8>, i: int, j: int)
    requires
        0 <= i <= s.len(),
        0 <= j < split_commas(s.take(i)).len() - 1 || (0 <= j < split_commas(s.take(i)).len() && i
            < s.len() && s[i] == 0x2c),
    ensures
        j < split_commas(s).len(),
        split_commas(s)[j] == split_commas(s.take(i))[j],
        forall|h: int| 0 <= h < j ==> split_commas(s)[h] == split_commas(s.take(i))[h],
    decreases s.len() - i,
{
    if i == s.len() {
        assert(s.take(i) =~= s);
    } else {
        assert(s.take(i + 1).drop_last() =~= s.take(i));
        assert(s.take(i + 1).last() == s[i]);
        lemma_parts_stay(s, i + 1, j);
        assert forall|h: int| 0 <= h < j implies split_commas(s)[h] == split_commas(
            s.take(i),
        )[h] by {
            lemma_parts_stay(s, i + 1, h);
        }
    }
}

/// Reads a list of sizes such as `32M,32M,1G` and gives, for each part, the
/// number of shards of `block` bytes that a volume of that size takes, and
/// at least one. Fails with `ZeroBlock` where `block` is 0, and else with
/// the number of the first part that is no size.
pub fn parse_sizes(spec: &str, block: usize) -> (r: Result<Vec<usize>, CapacityError>)
    ensures
        block == 0 ==> r == Err::<Vec<usize>, CapacityError>(CapacityError::ZeroBlock),
        block > 0 ==> list_read(encode_utf8(spec@), Some(block as nat), r),
{
    if block == 0 {
        return Err(CapacityError::ZeroBlock);
    }
    read_list(spec.as_bytes(), true, block)
}

/// Reads a list of shard counts such as `100,100,50`; a count of 0 stands
/// for 1. Fails with the number of the first part that is no count.
pub fn parse_counts(spec: &str) -> (r: Result<Vec<usize>, CapacityError>)
    ensures
        list_read(encode_utf8(spec@), None, r),
{
    read_list(spec.as_bytes(), false, 0)
}

/// The capacity of the one volume that is made where no capacities are
/// given: room for every parity shard of the set, M + O for every stripe, as
/// far as the machine can count; no room where the parameters are out of
/// range.
pub open spec fn whole_set_capacity(datas: Seq<Seq<u8>>, cfg: EncoderConfig) -> usize {
    let shards = encoded_stripes(datas, cfg) * (cfg.m() + cfg.o());
    if cfg.config_error() is Some {
        0
    } else if shards > usize::MAX {
        usize::MAX
    } else {
        shards as usize
    }
}

/// The capacities used where none are given: one volume that takes every
/// parity shard of the set.
pub fn default_capacities(files: &Vec<SourceFile>, cfg: &EncoderConfig) -> (c: Vec<usize>)
    ensures
        c@ == seq![whole_set_capacity(file_datas(files@), *cfg)],
{
    let mut c: Vec<usize> = Vec::new();
    let m: usize = match cfg.validate() {
        Err(_) => 0,
        Ok(m) => m,
    };
    if m == 0 {
        c.push(0);
        assert(cfg.config_error() is None ==> encoded_stripes(file_datas(files@), *cfg) * (cfg.m()
            + cfg.o()) == 0) by (nonlinear_arith)
            requires
                cfg.config_error() is None ==> cfg.m() + cfg.o() == 0,
        ;
        assert(c@ =~= seq![whole_set_capacity(file_datas(files@), *cfg)]);
        return c;
    }
    let k: u128 = cfg.stripe_k as u128;
    let per: u128 = (m + cfg.outer_parity) as u128;
    let ghost datas = file_datas(files@);
    let ghost counts = chunk_counts(datas, cfg.chunk_size as int);
    let mut total: u128 = 0;
    let mut fi: usize = 0;
    while fi < files.len()
        invariant
            fi <= files.len(),
            cfg.chunk_size > 0,
            datas == file_datas(files@),
            counts == chunk_counts(datas, cfg.chunk_size as int),
            total == total_chunks(counts.take(fi as int)),
            total <= fi * 0xffff_ffff_ffff_ffff,
        decreases files.len() - fi,
    {
        let n: usize = stripes_for(files[fi].data.len(), cfg.chunk_size);
        proof {
            assert(counts.take(fi + 1).drop_last() =~= counts.take(fi as int));
            assert(counts.take(fi + 1).last() == counts[fi as int]);
            assert(datas[fi as int] == files@[fi as int].data@);
        }
        total = total + n as u128;
        fi += 1;
    }
    proof {
        assert(counts.take(fi as int) =~= counts);
        lemma_order_is_bijection(counts, cfg.interleave_files);
    }
    let stripes: u128 = (total + k - 1) / k;
    let cap: usize = if stripes > usize::MAX as u128 {
        assert(stripes * per >= stripes) by (nonlinear_arith)
            requires
                per >= 1,
                stripes >= 0,
        ;
        usize::MAX
    } else {
        assert(stripes * per <= 0xffff_ffff_ffff_ffff * 512) by (nonlinear_arith)
            requires
                0 <= stripes <= 0xffff_ffff_ffff_ffff,
                0 <= per <= 512,
        ;
        let shards: u128 = stripes * per;
        if shards > usize::MAX as u128 {
            usize::MAX
        } else {
            shards as usize
        }
    };
    c.push(cap);
    assert(c@ =~= seq![whole_set_capacity(file_datas(files@), *cfg)]);
    c
}

} // verus!
