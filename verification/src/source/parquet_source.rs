//! A cache of quantized column blocks: what it is made of, when it may be used again, and how
//! little of it has to be read.
use vstd::prelude::*;
use vstd::string::*;

use super::dense::copy_cuts;
use crate::columns::{partition_features, BinCuts, ColumnBlock};
use crate::float32::F32;
use crate::text::same_text;
use crate::types::{Bin, FeatId};

verus! {

/// The version of the cache that this library writes and reads.
pub const CACHE_VERSION: u32 = 2;

/// Why a cache is not used.
#[derive(Clone, Copy, Debug, PartialEq, Eq, Structural)]
pub enum CacheError {
    Version { found: u32 },
    /// The file is another one, or has changed.
    SourceChanged,
    Label,
    BlockWidth,
    MaxBin,
    FeatureCount,
    /// The groups do not cover the features in blocks of the width.
    Groups,
    HashCount,
    /// The offsets of the cuts do not fit the cuts.
    Offsets,
    /// The cuts are not finite or do not rise.
    Cuts,
    CutsHash,
    /// Other cuts were asked for than the cache holds.
    OtherCuts,
    Rows,
    BlockLength { block: usize },
    NoBlock { block: usize },
    Checksum { block: usize },
    NoColumn { block: usize, column: usize },
    NoFeature { feat: FeatId, features: usize },
}

// ---- hashes ----

/// One step of the FNV-1a hash.
pub open spec fn fnv_step(h: u64, byte: u8) -> u64 {
    (((h ^ (byte as u64)) * 0x100_0000_01b3) % 0x1_0000_0000_0000_0000) as u64
}

/// The FNV-1a hash of bytes, from a state on.
pub open spec fn fnv(h: u64, bytes: Seq<u8>) -> u64
    decreases bytes.len(),
{
    if bytes.len() == 0 {
        h
    } else {
        fnv_step(fnv(h, bytes.drop_last()), bytes.last())
    }
}

/// The four bytes of a word, lowest first.
pub open spec fn le_bytes(v: u32) -> Seq<u8> {
    seq![
        (v % 256) as u8,
        (v / 256 % 256) as u8,
        (v / 65536 % 256) as u8,
        (v / 16777216 % 256) as u8,
    ]
}

/// The bytes of words, one after the other.
pub open spec fn words_bytes(words: Seq<u32>) -> Seq<u8>
    decreases words.len(),
{
    if words.len() == 0 {
        seq![]
    } else {
        words_bytes(words.drop_last()) + le_bytes(words.last())
    }
}

/// A word is told by its bytes, the lowest first.
pub proof fn law_bytes_tell_the_word(v: u32)
    ensures
        le_bytes(v).len() == 4,
        v == le_bytes(v)[0] + 256 * le_bytes(v)[1] + 65536 * le_bytes(v)[2] + 16777216 * le_bytes(
            v,
        )[3],
{
}

proof fn lemma_product_tells_the_factor(a: u64, b: u64)
    requires
        (a * 0x100_0000_01b3) % 0x1_0000_0000_0000_0000 == (b * 0x100_0000_01b3)
            % 0x1_0000_0000_0000_0000,
    ensures
        a == b,
{
    let m = 0x1_0000_0000_0000_0000int;
    let p = 0x100_0000_01b3int;
    let inverse = 0xce96_5057_aff6_957bint;
    let q = 887285111055int;
    assert(p * inverse == 1 + m * q);
    vstd::arithmetic::div_mod::lemma_mul_mod_noop_left(a * p, inverse, m);
    vstd::arithmetic::div_mod::lemma_mul_mod_noop_left(b * p, inverse, m);
    assert((a * p) * inverse == m * (a * q) + a) by (nonlinear_arith)
        requires
            p * inverse == 1 + m * q,
    ;
    assert((b * p) * inverse == m * (b * q) + b) by (nonlinear_arith)
        requires
            p * inverse == 1 + m * q,
    ;
    vstd::arithmetic::div_mod::lemma_mod_multiples_vanish(a * q, a as int, m);
    vstd::arithmetic::div_mod::lemma_mod_multiples_vanish(b * q, b as int, m);
    vstd::arithmetic::div_mod::lemma_small_mod(a as nat, m as nat);
    vstd::arithmetic::div_mod::lemma_small_mod(b as nat, m as nat);
}

proof fn lemma_step_tells_its_start(g: u64, h: u64, a: u8, b: u8)
    requires
        fnv_step(g, a) == fnv_step(h, b),
    ensures
        g == h <==> a == b,
{
    let x = a as u64;
    let y = b as u64;
    lemma_product_tells_the_factor(g ^ x, h ^ y);
    assert(g ^ x == h ^ y ==> (g == h <==> x == y)) by (bit_vector);
}

/// One byte that changes changes the hash: of two texts of one length that differ in one place, the
/// hashes differ, whatever state they start from.
pub proof fn law_one_byte_changes_the_hash(h: u64, a: Seq<u8>, b: Seq<u8>, at: int)
    requires
        a.len() == b.len(),
        0 <= at < a.len(),
        a[at] != b[at],
        forall|i: int| 0 <= i < a.len() && i != at ==> a[i] == b[i],
    ensures
        fnv(h, a) != fnv(h, b),
    decreases a.len(),
{
    let x = a.drop_last();
    let y = b.drop_last();
    let g = fnv(h, x);
    let k = fnv(h, y);
    let last = a.len() - 1;
    if at == last {
        assert(x =~= y);
        if fnv(h, a) == fnv(h, b) {
            lemma_step_tells_its_start(g, k, a.last(), b.last());
        }
    } else {
        assert(a[last] == b[last]);
        law_one_byte_changes_the_hash(h, x, y, at);
        if fnv(h, a) == fnv(h, b) {
            lemma_step_tells_its_start(g, k, a.last(), b.last());
        }
    }
}

/// The state that the hash starts from.
pub const FNV_START: u64 = 0xcbf2_9ce4_8422_2325;

fn fnv_word(h: u64, v: u32) -> (r: u64)
    ensures
        r == fnv(h, le_bytes(v)),
{
    let bytes: [u8; 4] = [
        (v % 256) as u8,
        (v / 256 % 256) as u8,
        (v / 65536 % 256) as u8,
        (v / 16777216 % 256) as u8,
    ];
    let mut r: u64 = h;
    let mut i: usize = 0;
    let ghost all = le_bytes(v);
    assert(bytes@ =~= all);
    assert(all.take(0) =~= Seq::<u8>::empty());
    while i < 4
        invariant
            i <= 4,
            all.len() == 4,
            bytes@ == all,
            r == fnv(h, all.take(i as int)),
        decreases 4 - i,
    {
        assert(all.take(i + 1).drop_last() =~= all.take(i as int));
        assert(all.take(i + 1).last() == all[i as int]);
        r = (r ^ (bytes[i] as u64)).wrapping_mul(0x100_0000_01b3);
        i += 1;
    }
    assert(all.take(4) =~= all);
    r
}

proof fn lemma_fnv_goes_on(h: u64, a: Seq<u8>, b: Seq<u8>)
    ensures
        fnv(h, a + b) == fnv(fnv(h, a), b),
    decreases b.len(),
{
    if b.len() == 0 {
        assert(a + b =~= a);
    } else {
        assert((a + b).drop_last() =~= a + b.drop_last());
        lemma_fnv_goes_on(h, a, b.drop_last());
    }
}

fn fnv_words(h: u64, words: &Vec<u32>) -> (r: u64)
    ensures
        r == fnv(h, words_bytes(words@)),
{
    let mut r: u64 = h;
    let mut i: usize = 0;
    assert(words@.take(0) =~= Seq::<u32>::empty());
    while i < words.len()
        invariant
            i <= words@.len(),
            r == fnv(h, words_bytes(words@.take(i as int))),
        decreases words.len() - i,
    {
        proof {
            assert(words@.take(i + 1).drop_last() =~= words@.take(i as int));
            lemma_fnv_goes_on(h, words_bytes(words@.take(i as int)), le_bytes(words@[i as int]));
        }
        r = fnv_word(r, words[i]);
        i += 1;
    }
    assert(words@.take(i as int) =~= words@);
    r
}

/// A hexadecimal digit.
pub open spec fn hex_digit(d: int) -> char {
    if d == 0 {
        '0'
    } else if d == 1 {
        '1'
    } else if d == 2 {
        '2'
    } else if d == 3 {
        '3'
    } else if d == 4 {
        '4'
    } else if d == 5 {
        '5'
    } else if d == 6 {
        '6'
    } else if d == 7 {
        '7'
    } else if d == 8 {
        '8'
    } else if d == 9 {
        '9'
    } else if d == 10 {
        'a'
    } else if d == 11 {
        'b'
    } else if d == 12 {
        'c'
    } else if d == 13 {
        'd'
    } else if d == 14 {
        'e'
    } else {
        'f'
    }
}

/// The last `k` hexadecimal digits of a number.
pub open spec fn hex(h: int, k: int) -> Seq<char>
    decreases k,
{
    if k <= 0 {
        seq![]
    } else {
        hex(h / 16, k - 1).push(hex_digit(h % 16))
    }
}

/// Hexadecimal digits tell the number: two numbers below a power of sixteen with the same digits
/// are the same, and there are as many digits as asked for.
pub proof fn law_digits_tell_the_number(g: int, h: int, k: nat)
    requires
        0 <= g < vstd::arithmetic::power::pow(16, k),
        0 <= h < vstd::arithmetic::power::pow(16, k),
        hex(g, k as int) == hex(h, k as int),
    ensures
        g == h,
        hex(g, k as int).len() == k,
    decreases k,
{
    vstd::arithmetic::power::lemma_pow0(16);
    if k > 0 {
        let j = (k - 1) as nat;
        vstd::arithmetic::power::lemma_pow1(16);
        vstd::arithmetic::power::lemma_pow_adds(16, 1, j);
        let a = hex(g / 16, j as int);
        let b = hex(h / 16, j as int);
        let x = hex(g, k as int);
        let y = hex(h, k as int);
        assert(x.drop_last() =~= a);
        assert(y.drop_last() =~= b);
        assert(x.last() == hex_digit(g % 16));
        assert(y.last() == hex_digit(h % 16));
        law_digits_tell_the_number(g / 16, h / 16, j);
        assert(g % 16 == h % 16);
    }
}

fn digit_text(d: u64) -> (r: &'static str)
    requires
        d < 16,
    ensures
        r@ == seq![hex_digit(d as int)],
{
    proof {
        reveal_strlit("0");
        reveal_strlit("1");
        reveal_strlit("2");
        reveal_strlit("3");
        reveal_strlit("4");
        reveal_strlit("5");
        reveal_strlit("6");
        reveal_strlit("7");
        reveal_strlit("8");
        reveal_strlit("9");
        reveal_strlit("a");
        reveal_strlit("b");
        reveal_strlit("c");
        reveal_strlit("d");
        reveal_strlit("e");
        reveal_strlit("f");
    }
    let r: &'static str = match d {
        0 => "0",
        1 => "1",
        2 => "2",
        3 => "3",
        4 => "4",
        5 => "5",
        6 => "6",
        7 => "7",
        8 => "8",
        9 => "9",
        10 => "a",
        11 => "b",
        12 => "c",
        13 => "d",
        14 => "e",
        _ => "f",
    };
    assert(r@ =~= seq![hex_digit(d as int)]);
    r
}

/// A number as sixteen hexadecimal digits.
fn hex_text(h: u64) -> (r: String)
    ensures
        r@ == hex(h as int, 16),
{
    let mut digits: Vec<u64> = Vec::new();
    let mut rest: u64 = h;
    let mut i: usize = 0;
    while i < 16
        invariant
            i <= 16,
            digits@.len() == i,
            forall|k: int| 0 <= k < i ==> (#[trigger] digits@[k]) < 16,
            hex(h as int, 16) == hex(rest as int, 16 - i) + low_digits(digits@, i as int),
        decreases 16 - i,
    {
        let d: u64 = rest % 16;
        let ghost before = digits@;
        digits.push(d);
        proof {
            lemma_low_digits(before, digits@, i as int);
            let upper = hex(rest as int / 16, 16 - i - 1);
            assert(hex(rest as int, 16 - i) == upper.push(hex_digit(d as int)));
            assert(upper.push(hex_digit(d as int)) + low_digits(before, i as int) =~= upper
                + low_digits(digits@, i + 1));
        }
        rest = rest / 16;
        i += 1;
    }
    let mut r: String = String::new();
    let mut k: usize = 16;
    proof {
        assert(hex(rest as int, 0) + low_digits(digits@, 16) =~= low_digits(digits@, 16));
        assert(r@ + low_digits(digits@, 16) =~= low_digits(digits@, 16));
    }
    while k > 0
        invariant
            k <= 16,
            digits@.len() == 16,
            forall|q: int| 0 <= q < 16 ==> (#[trigger] digits@[q]) < 16,
            r@ + low_digits(digits@, k as int) == hex(h as int, 16),
        decreases k,
    {
        k -= 1;
        let ghost before = r@;
        let t: &'static str = digit_text(digits[k]);
        r.append(t);
        assert(low_digits(digits@, k + 1) == seq![hex_digit(digits@[k as int] as int)]
            + low_digits(digits@, k as int));
        assert(before + low_digits(digits@, k + 1) =~= r@ + low_digits(digits@, k as int));
    }
    assert(r@ + low_digits(digits@, 0) =~= r@);
    r
}

/// The digits below place `i`, highest first.
spec fn low_digits(digits: Seq<u64>, i: int) -> Seq<char>
    decreases i,
{
    if i <= 0 {
        seq![]
    } else {
        seq![hex_digit(digits[i - 1] as int)] + low_digits(digits, i - 1)
    }
}

proof fn lemma_low_digits(a: Seq<u64>, b: Seq<u64>, i: int)
    requires
        i <= a.len() <= b.len(),
        forall|k: int| 0 <= k < i ==> (#[trigger] a[k]) == b[k],
    ensures
        low_digits(a, i) == low_digits(b, i),
    decreases i,
{
    if i > 0 {
        lemma_low_digits(a, b, i - 1);
        assert(a[i - 1] == b[i - 1]);
    }
}

/// The bit patterns of numbers.
pub open spec fn bits_of(values: Seq<F32>) -> Seq<u32> {
    values.map_values(|v: F32| v.bits)
}

fn value_bits(values: &Vec<F32>) -> (r: Vec<u32>)
    ensures
        r@ == bits_of(values@),
{
    let mut r: Vec<u32> = Vec::new();
    let mut i: usize = 0;
    while i < values.len()
        invariant
            i <= values@.len(),
            r@.len() == i,
            forall|k: int| 0 <= k < i ==> (#[trigger] r@[k]) == values@[k].bits,
        decreases values.len() - i,
    {
        r.push(values[i].to_bits());
        i += 1;
    }
    assert(r@ =~= bits_of(values@));
    r
}

/// The hash of cuts: FNV-1a over their bit patterns and offsets, as sixteen hexadecimal digits.
pub open spec fn cuts_digest(bits: Seq<u32>, offsets: Seq<u32>) -> Seq<char> {
    hex(fnv(fnv(FNV_START, words_bytes(bits)), words_bytes(offsets)) as int, 16)
}

/// The hash of cuts.
pub fn cuts_hash(bits: &Vec<u32>, offsets: &Vec<u32>) -> (r: String)
    ensures
        r@ == cuts_digest(bits@, offsets@),
{
    hex_text(fnv_words(fnv_words(FNV_START, bits), offsets))
}

/// The BLAKE3 hash of bytes, in hexadecimal digits.
pub uninterp spec fn blake3_hex(bytes: Seq<u8>) -> Seq<char>;

/// The hash of a block: calls `blake3::hash`, and `to_hex` on what it returns. Claims that the
/// digits depend on the bytes alone. That blocks which differ have hashes which differ is not
/// claimed: it holds of all blocks that one will ever meet, but not of all there are.
#[verifier::external_body]
fn block_hash(data: &[u8]) -> (r: String)
    ensures
        r@ == blake3_hex(data@),
{
    blake3::hash(data).to_hex().to_string()
}

/// The hash that is written beside a block, and by which it is recognized when it is read back.
pub fn hash_of_block(block: &ColumnBlock) -> (r: String)
    ensures
        r@ == blake3_hex(block.data@),
{
    block_hash(block.data.as_slice())
}

// ---- the manifest ----

/// Which file a cache was made of.
pub struct SourceIdentity {
    pub path: String,
    pub len: u64,
    pub mtime_ns: u64,
}

/// What a cache says of itself.
pub struct CacheManifest {
    pub version: u32,
    pub source: SourceIdentity,
    pub label: String,
    pub max_bins: u32,
    pub cols_per_block: usize,
    pub n_rows: usize,
    pub n_features: usize,
    pub cuts_values_bits: Vec<u32>,
    pub cuts_offsets: Vec<u32>,
    pub cuts_hash: String,
    pub groups: Vec<Vec<FeatId>>,
    /// The hash of each block, in the order of the groups.
    pub block_hashes: Vec<String>,
}

/// Groups as sequences.
pub open spec fn group_views(g: Seq<Vec<FeatId>>) -> Seq<Seq<FeatId>> {
    g.map_values(|v: Vec<FeatId>| v@)
}

/// The groups of a number of features.
pub open spec fn expected_groups(n_features: int, cols: int) -> Seq<Seq<FeatId>> {
    Seq::new(
        crate::math::ceil_div(n_features, cols) as nat,
        |b: int| crate::columns::block_feats(n_features, cols, b),
    )
}

/// Numbers from bit patterns.
pub open spec fn values_of(bits: Seq<u32>) -> Seq<F32> {
    bits.map_values(|b: u32| F32 { bits: b })
}

/// The offsets of cuts start at 0, do not fall, end at the number of cuts, and there is one for
/// each feature and one more.
pub open spec fn offsets_fit(m: CacheManifest) -> bool {
    &&& m.cuts_offsets@.len() == m.n_features + 1
    &&& crate::columns::offsets_ok(values_of(m.cuts_values_bits@), m.cuts_offsets@)
}

/// What a manifest is held against.
pub struct CacheRequest {
    pub source: SourceIdentity,
    pub label: String,
    /// Zero: whatever the cache was made with.
    pub max_bins: u32,
    pub cols_per_block: usize,
    pub n_features: usize,
}

/// The first reason against using a cache.
pub open spec fn manifest_fault(m: CacheManifest, q: CacheRequest) -> Option<CacheError> {
    if m.version != CACHE_VERSION {
        Some(CacheError::Version { found: m.version })
    } else if m.source.path@ != q.source.path@ || m.source.len != q.source.len
        || m.source.mtime_ns != q.source.mtime_ns {
        Some(CacheError::SourceChanged)
    } else if m.label@ != q.label@ {
        Some(CacheError::Label)
    } else if m.cols_per_block != q.cols_per_block {
        Some(CacheError::BlockWidth)
    } else if q.max_bins != 0 && m.max_bins != q.max_bins {
        Some(CacheError::MaxBin)
    } else if m.n_features != q.n_features {
        Some(CacheError::FeatureCount)
    } else if group_views(m.groups@) != expected_groups(
        m.n_features as int,
        q.cols_per_block as int,
    ) {
        Some(CacheError::Groups)
    } else if m.block_hashes@.len() != m.groups@.len() {
        Some(CacheError::HashCount)
    } else if !offsets_fit(m) {
        Some(CacheError::Offsets)
    } else if !crate::columns::cuts_valid(values_of(m.cuts_values_bits@), m.cuts_offsets@) {
        Some(CacheError::Cuts)
    } else if m.cuts_hash@ != cuts_digest(m.cuts_values_bits@, m.cuts_offsets@) {
        Some(CacheError::CutsHash)
    } else {
        None
    }
}

fn same_groups(a: &Vec<Vec<FeatId>>, b: &Vec<Vec<FeatId>>) -> (r: bool)
    ensures
        r == (group_views(a@) == group_views(b@)),
{
    if a.len() != b.len() {
        assert(group_views(a@).len() != group_views(b@).len());
        return false;
    }
    let mut i: usize = 0;
    while i < a.len()
        invariant
            i <= a@.len(),
            a@.len() == b@.len(),
            forall|k: int| 0 <= k < i ==> (#[trigger] a@[k])@ == b@[k]@,
        decreases a.len() - i,
    {
        if !same_group(&a[i], &b[i]) {
            proof {
                if group_views(a@) == group_views(b@) {
                    assert(group_views(a@)[i as int] == a@[i as int]@);
                    assert(group_views(b@)[i as int] == b@[i as int]@);
                }
            }
            return false;
        }
        i += 1;
    }
    assert(group_views(a@) =~= group_views(b@));
    true
}

fn same_group(a: &Vec<FeatId>, b: &Vec<FeatId>) -> (r: bool)
    ensures
        r == (a@ == b@),
{
    if a.len() != b.len() {
        return false;
    }
    let mut i: usize = 0;
    while i < a.len()
        invariant
            i <= a@.len(),
            a@.len() == b@.len(),
            forall|k: int| 0 <= k < i ==> a@[k] == b@[k],
        decreases a.len() - i,
    {
        if a[i] != b[i] {
            return false;
        }
        i += 1;
    }
    assert(a@ =~= b@);
    true
}

fn fit_offsets(m: &CacheManifest) -> (r: bool)
    ensures
        r == offsets_fit(*m),
{
    let n: usize = m.cuts_offsets.len();
    let n_values: usize = m.cuts_values_bits.len();
    assert(values_of(m.cuts_values_bits@).len() == n_values);
    if n == 0 || n - 1 != m.n_features {
        return false;
    }
    if m.cuts_offsets[0] != 0 || m.cuts_offsets[n - 1] as usize != n_values {
        return false;
    }
    let mut i: usize = 1;
    while i < n
        invariant
            1 <= i <= n,
            n == m.cuts_offsets@.len(),
            forall|p: int, q: int|
                0 <= p <= q < i ==> m.cuts_offsets@[p] <= m.cuts_offsets@[q],
        decreases n - i,
    {
        if m.cuts_offsets[i - 1] > m.cuts_offsets[i] {
            return false;
        }
        i += 1;
    }
    true
}

/// The cuts of each feature, from bit patterns.
fn split_cuts(m: &CacheManifest) -> (r: Vec<Vec<F32>>)
    requires
        offsets_fit(*m),
    ensures
        r@.len() == m.n_features,
        forall|f: int|
            0 <= f < m.n_features ==> (#[trigger] r@[f])@ == crate::columns::cuts_of(
                values_of(m.cuts_values_bits@),
                m.cuts_offsets@,
                f,
            ),
{
    let n: usize = m.n_features;
    let ghost values = values_of(m.cuts_values_bits@);
    let mut r: Vec<Vec<F32>> = Vec::new();
    let mut f: usize = 0;
    while f < n
        invariant
            f <= n,
            n == m.n_features,
            offsets_fit(*m),
            values == values_of(m.cuts_values_bits@),
            r@.len() == f,
            forall|k: int|
                0 <= k < f ==> (#[trigger] r@[k])@ == crate::columns::cuts_of(
                    values,
                    m.cuts_offsets@,
                    k,
                ),
        decreases n - f,
    {
        let lo: usize = m.cuts_offsets[f] as usize;
        let hi: usize = m.cuts_offsets[f + 1] as usize;
        let ghost part = crate::columns::cuts_of(values, m.cuts_offsets@, f as int);
        proof {
            assert(m.cuts_offsets@[f + 1] <= m.cuts_offsets@[n as int]);
            assert(m.cuts_offsets@[f as int] <= m.cuts_offsets@[f + 1]);
        }
        let mut cuts: Vec<F32> = Vec::new();
        let mut i: usize = lo;
        while i < hi
            invariant
                lo <= i <= hi,
                hi <= m.cuts_values_bits@.len(),
                values == values_of(m.cuts_values_bits@),
                part == values.subrange(lo as int, hi as int),
                cuts@ == part.take(i - lo),
            decreases hi - i,
        {
            cuts.push(F32::from_bits(m.cuts_values_bits[i]));
            assert(part.take(i + 1 - lo) =~= part.take(i - lo).push(part[i - lo]));
            i += 1;
        }
        assert(part.take(i - lo) =~= part);
        r.push(cuts);
        f += 1;
    }
    r
}

proof fn lemma_joined_is_values(
    per_feat: Seq<Vec<F32>>,
    values: Seq<F32>,
    offsets: Seq<u32>,
    k: int,
)
    requires
        crate::columns::offsets_ok(values, offsets),
        per_feat.len() == offsets.len() - 1,
        forall|f: int|
            0 <= f < per_feat.len() ==> (#[trigger] per_feat[f])@ == crate::columns::cuts_of(
                values,
                offsets,
                f,
            ),
        0 <= k <= per_feat.len(),
    ensures
        crate::columns::joined_values(per_feat, k) == values.take(offsets[k] as int),
    decreases k,
{
    if k > 0 {
        lemma_joined_is_values(per_feat, values, offsets, k - 1);
        assert(per_feat[k - 1]@ == crate::columns::cuts_of(values, offsets, k - 1));
        assert(offsets[k - 1] <= offsets[k]);
        assert(offsets[k] <= offsets[offsets.len() - 1]);
        assert(values.take(offsets[k] as int) =~= values.take(offsets[k - 1] as int)
            + values.subrange(offsets[k - 1] as int, offsets[k] as int));
    } else {
        assert(values.take(offsets[0] as int) =~= seq![]);
    }
}

/// The cuts of a manifest, or `None` where they are not valid.
fn manifest_cuts(m: &CacheManifest) -> (r: Option<BinCuts>)
    requires
        offsets_fit(*m),
    ensures
        match r {
            None => !crate::columns::cuts_valid(
                values_of(m.cuts_values_bits@),
                m.cuts_offsets@,
            ),
            Some(c) => crate::columns::cuts_valid(
                values_of(m.cuts_values_bits@),
                m.cuts_offsets@,
            ) && c.wf() && c.values@ == values_of(m.cuts_values_bits@) && c.offsets@
                == m.cuts_offsets@,
        },
{
    let per_feat: Vec<Vec<F32>> = split_cuts(m);
    let ghost values = values_of(m.cuts_values_bits@);
    proof {
        lemma_joined_is_values(
            per_feat@,
            values,
            m.cuts_offsets@,
            per_feat@.len() as int,
        );
        assert(values.take(m.cuts_offsets@[per_feat@.len() as int] as int) =~= values);
        assert forall|f: int| 0 <= f < per_feat@.len() implies (
        crate::float32::strictly_increasing((#[trigger] per_feat@[f])@)
            <==> crate::float32::strictly_increasing(
            crate::columns::cuts_of(values, m.cuts_offsets@, f),
        )) by {}
        if crate::columns::joinable(per_feat@) {
            assert forall|f: int| 0 <= f < m.cuts_offsets@.len() - 1 implies
                crate::float32::strictly_increasing(
                #[trigger] crate::columns::cuts_of(values, m.cuts_offsets@, f),
            ) by {
                assert(per_feat@[f]@ == crate::columns::cuts_of(values, m.cuts_offsets@, f));
            }
        }
        if crate::columns::cuts_valid(values, m.cuts_offsets@) {
            assert forall|f: int| 0 <= f < per_feat@.len() implies
                crate::float32::strictly_increasing((#[trigger] per_feat@[f])@) by {
                assert(crate::float32::strictly_increasing(
                    crate::columns::cuts_of(values, m.cuts_offsets@, f),
                ));
            }
        }
    }
    if crate::columns::join_cuts(&per_feat).is_none() {
        return None;
    }
    let mut flat: Vec<F32> = Vec::new();
    let mut i: usize = 0;
    while i < m.cuts_values_bits.len()
        invariant
            i <= m.cuts_values_bits@.len(),
            values == values_of(m.cuts_values_bits@),
            flat@ == values.take(i as int),
        decreases m.cuts_values_bits.len() - i,
    {
        flat.push(F32::from_bits(m.cuts_values_bits[i]));
        assert(values.take(i + 1) =~= values.take(i as int).push(values[i as int]));
        i += 1;
    }
    assert(values.take(i as int) =~= values);
    let mut offsets: Vec<u32> = Vec::new();
    let mut k: usize = 0;
    while k < m.cuts_offsets.len()
        invariant
            k <= m.cuts_offsets@.len(),
            offsets@ == m.cuts_offsets@.take(k as int),
        decreases m.cuts_offsets.len() - k,
    {
        offsets.push(m.cuts_offsets[k]);
        assert(m.cuts_offsets@.take(k + 1) =~= m.cuts_offsets@.take(k as int).push(
            m.cuts_offsets@[k as int],
        ));
        k += 1;
    }
    assert(m.cuts_offsets@.take(k as int) =~= m.cuts_offsets@);
    Some(BinCuts::new(flat, offsets))
}

/// Holds a manifest against what is asked for. Only where everything agrees do the cuts of the
/// cache come out: bins of another file, another label or other cuts are never used in silence.
pub fn check_manifest(m: &CacheManifest, q: &CacheRequest) -> (r: Result<BinCuts, CacheError>)
    requires
        q.cols_per_block > 0,
        q.n_features <= u32::MAX,
    ensures
        match r {
            Err(e) => manifest_fault(*m, *q) == Some(e),
            Ok(c) => manifest_fault(*m, *q) is None && c.wf() && c.values@ == values_of(
                m.cuts_values_bits@,
            ) && c.offsets@ == m.cuts_offsets@,
        },
{
    if m.version != CACHE_VERSION {
        return Err(CacheError::Version { found: m.version });
    }
    if !same_text(m.source.path.as_str(), q.source.path.as_str()) || m.source.len != q.source.len
        || m.source.mtime_ns != q.source.mtime_ns {
        return Err(CacheError::SourceChanged);
    }
    if !same_text(m.label.as_str(), q.label.as_str()) {
        return Err(CacheError::Label);
    }
    if m.cols_per_block != q.cols_per_block {
        return Err(CacheError::BlockWidth);
    }
    if q.max_bins != 0 && m.max_bins != q.max_bins {
        return Err(CacheError::MaxBin);
    }
    if m.n_features != q.n_features {
        return Err(CacheError::FeatureCount);
    }
    let expected: Vec<Vec<FeatId>> = partition_features(m.n_features, q.cols_per_block);
    proof {
        let want = expected_groups(m.n_features as int, q.cols_per_block as int);
        crate::math::lemma_ceil_div(m.n_features as int, q.cols_per_block as int);
        assert(group_views(expected@) =~= want) by {
            assert forall|b: int| 0 <= b < expected@.len() implies group_views(expected@)[b]
                == want[b] by {
                assert(expected@[b]@ == crate::columns::block_feats(
                    m.n_features as int,
                    q.cols_per_block as int,
                    b,
                ));
            }
        }
    }
    if !same_groups(&m.groups, &expected) {
        return Err(CacheError::Groups);
    }
    if m.block_hashes.len() != m.groups.len() {
        return Err(CacheError::HashCount);
    }
    if !fit_offsets(m) {
        return Err(CacheError::Offsets);
    }
    match manifest_cuts(m) {
        None => Err(CacheError::Cuts),
        Some(c) => {
            let h: String = cuts_hash(&m.cuts_values_bits, &m.cuts_offsets);
            if !same_text(h.as_str(), m.cuts_hash.as_str()) {
                return Err(CacheError::CutsHash);
            }
            Ok(c)
        },
    }
}

/// The manifest of a cache.
pub fn manifest(
    source: SourceIdentity,
    label: String,
    max_bins: u32,
    cols_per_block: usize,
    n_rows: usize,
    cuts: &BinCuts,
    block_hashes: Vec<String>,
) -> (m: CacheManifest)
    requires
        cuts.wf(),
        cols_per_block > 0,
    ensures
        m.version == CACHE_VERSION,
        m.source == source,
        m.label == label,
        m.max_bins == max_bins,
        m.cols_per_block == cols_per_block,
        m.n_rows == n_rows,
        m.n_features == cuts.spec_n_feats(),
        m.cuts_values_bits@ == bits_of(cuts.values@),
        m.cuts_offsets@ == cuts.offsets@,
        m.cuts_hash@ == cuts_digest(bits_of(cuts.values@), cuts.offsets@),
        group_views(m.groups@) == expected_groups(cuts.spec_n_feats(), cols_per_block as int),
        m.block_hashes == block_hashes,
{
    let n_features: usize = cuts.n_feats();
    let groups: Vec<Vec<FeatId>> = partition_features(n_features, cols_per_block);
    proof {
        let want = expected_groups(n_features as int, cols_per_block as int);
        crate::math::lemma_ceil_div(n_features as int, cols_per_block as int);
        assert(group_views(groups@) =~= want) by {
            assert forall|b: int| 0 <= b < groups@.len() implies group_views(groups@)[b]
                == want[b] by {
                assert(groups@[b]@ == crate::columns::block_feats(
                    n_features as int,
                    cols_per_block as int,
                    b,
                ));
            }
        }
    }
    let bits: Vec<u32> = value_bits(&cuts.values);
    let copy: BinCuts = copy_cuts(cuts);
    let offsets: Vec<u32> = copy.offsets;
    let hash: String = cuts_hash(&bits, &offsets);
    CacheManifest {
        version: CACHE_VERSION,
        source,
        label,
        max_bins,
        cols_per_block,
        n_rows,
        n_features,
        cuts_values_bits: bits,
        cuts_offsets: offsets,
        cuts_hash: hash,
        groups,
        block_hashes,
    }
}

/// What was written is accepted: a manifest with the cuts, groups and hashes that a cache is
/// written with passes for the same file and the same request, and gives the cuts back.
pub proof fn law_written_cache_is_accepted(m: CacheManifest, cuts: BinCuts, q: CacheRequest)
    requires
        cuts.wf(),
        q.cols_per_block > 0,
        m.version == CACHE_VERSION,
        m.source.path@ == q.source.path@,
        m.source.len == q.source.len,
        m.source.mtime_ns == q.source.mtime_ns,
        m.label@ == q.label@,
        m.cols_per_block == q.cols_per_block,
        q.max_bins == 0 || m.max_bins == q.max_bins,
        m.n_features == cuts.spec_n_feats(),
        q.n_features == m.n_features,
        m.cuts_values_bits@ == bits_of(cuts.values@),
        m.cuts_offsets@ == cuts.offsets@,
        m.cuts_hash@ == cuts_digest(bits_of(cuts.values@), cuts.offsets@),
        group_views(m.groups@) == expected_groups(cuts.spec_n_feats(), q.cols_per_block as int),
        m.block_hashes@.len() == m.groups@.len(),
    ensures
        manifest_fault(m, q) is None,
        values_of(m.cuts_values_bits@) == cuts.values@,
{
    assert(values_of(bits_of(cuts.values@)) =~= cuts.values@);
}

/// The same numbers.
pub open spec fn same_numbers(a: Seq<F32>, b: Seq<F32>) -> bool {
    &&& a.len() == b.len()
    &&& forall|i: int| 0 <= i < a.len() ==> (#[trigger] a[i]).le(b[i]) && b[i].le(a[i])
}

/// Holds cuts that were asked for against those of a cache, value by value.
pub fn check_given_cuts(given: &BinCuts, cached: &BinCuts) -> (r: Result<(), CacheError>)
    ensures
        r == if same_numbers(given.values@, cached.values@) && given.offsets@ == cached.offsets@ {
            Ok::<(), CacheError>(())
        } else {
            Err(CacheError::OtherCuts)
        },
{
    if given.values.len() != cached.values.len() || !same_group(&given.offsets, &cached.offsets) {
        return Err(CacheError::OtherCuts);
    }
    let mut i: usize = 0;
    while i < given.values.len()
        invariant
            i <= given.values@.len(),
            given.values@.len() == cached.values@.len(),
            given.offsets@ == cached.offsets@,
            forall|k: int|
                0 <= k < i ==> (#[trigger] given.values@[k]).le(cached.values@[k])
                    && cached.values@[k].le(given.values@[k]),
        decreases given.values.len() - i,
    {
        if !(given.values[i].less_eq(cached.values[i]) && cached.values[i].less_eq(
            given.values[i],
        )) {
            assert(!(given.values@[i as int].le(cached.values@[i as int])
                && cached.values@[i as int].le(given.values@[i as int])));
            return Err(CacheError::OtherCuts);
        }
        i += 1;
    }
    Ok(())
}

/// The rows of a cache are those of its labels, and each block file has a byte for each feature
/// and row.
pub fn check_sizes(m: &CacheManifest, labels: usize, block_lens: &[u64]) -> (r: Result<
    (),
    CacheError,
>)
    requires
        block_lens@.len() == m.groups@.len(),
    ensures
        match r {
            Ok(()) => labels == m.n_rows && forall|b: int|
                0 <= b < m.groups@.len() ==> (#[trigger] block_lens@[b]) == block_bytes(
                    m.groups@[b]@.len() as int,
                    m.n_rows as int,
                ),
            Err(CacheError::Rows) => labels != m.n_rows,
            Err(CacheError::BlockLength { block }) => labels == m.n_rows && block < m.groups@.len()
                && block_lens@[block as int] != block_bytes(
                m.groups@[block as int]@.len() as int,
                m.n_rows as int,
            ) && forall|b: int|
                0 <= b < block ==> (#[trigger] block_lens@[b]) == block_bytes(
                    m.groups@[b]@.len() as int,
                    m.n_rows as int,
                ),
            Err(_) => false,
        },
{
    if labels != m.n_rows {
        return Err(CacheError::Rows);
    }
    let mut b: usize = 0;
    while b < m.groups.len()
        invariant
            b <= m.groups@.len(),
            labels == m.n_rows,
            block_lens@.len() == m.groups@.len(),
            forall|k: int|
                0 <= k < b ==> (#[trigger] block_lens@[k]) == block_bytes(
                    m.groups@[k]@.len() as int,
                    m.n_rows as int,
                ),
        decreases m.groups.len() - b,
    {
        let expected: usize = match m.groups[b].len().checked_mul(m.n_rows) {
            Some(e) => e,
            None => usize::MAX,
        };
        if block_lens[b] != expected as u64 {
            return Err(CacheError::BlockLength { block: b });
        }
        b += 1;
    }
    Ok(())
}

/// The bytes of a block, as far as they can be counted.
pub open spec fn block_bytes(n_feats: int, n_rows: int) -> int {
    crate::math::imin(n_feats * n_rows, usize::MAX as int)
}

// ---- where a cache goes ----

/// Where quantized blocks are kept, as the caller wants it.
pub struct QuantizedCacheOptions {
    /// Bytes that may stay in memory. `None`: half of what is free; zero: nothing stays.
    pub budget_bytes: Option<usize>,
    /// A directory to keep the cache in for later runs.
    pub path: Option<String>,
}

/// Where quantized blocks are kept.
#[derive(Clone, Copy, Debug, PartialEq, Eq, Structural)]
pub enum Placement {
    Memory,
    /// On disk; removed at the end unless the caller gave the place.
    Disk { delete_on_drop: bool },
}

/// Where blocks of `bytes` bytes together are kept: in memory where no place was given and they
/// are within the budget; a budget of zero means that none are.
pub fn placement(path_given: bool, budget: Option<usize>, default_budget: u64, bytes: usize) -> (r:
    Placement)
    ensures
        r == if path_given {
            Placement::Disk { delete_on_drop: false }
        } else if (match budget {
            Some(b) => b > 0 && bytes <= b,
            None => bytes <= default_budget,
        }) {
            Placement::Memory
        } else {
            Placement::Disk { delete_on_drop: true }
        },
{
    if path_given {
        return Placement::Disk { delete_on_drop: false };
    }
    let fits: bool = match budget {
        Some(b) => b > 0 && bytes <= b,
        None => bytes as u64 <= default_budget,
    };
    if fits {
        Placement::Memory
    } else {
        Placement::Disk { delete_on_drop: true }
    }
}

/// The bytes of all blocks together: one for each row and feature. `None`: more than can be
/// counted.
pub fn cache_bytes(n_rows: usize, n_features: usize) -> (r: Option<usize>)
    ensures
        r == if n_rows * n_features <= usize::MAX {
            Some((n_rows * n_features) as usize)
        } else {
            None
        },
{
    n_rows.checked_mul(n_features)
}

/// Which column of a block that was handed on is the asked one: a block of one column is that
/// column, and a whole block has it in its own place.
pub fn column_in(n_feats: usize, local: usize) -> (r: usize)
    ensures
        r == if n_feats == 1 {
            0
        } else {
            local
        },
{
    if n_feats == 1 {
        0
    } else {
        local
    }
}

/// What is done with a directory that was given for a cache.
#[derive(Clone, Copy, Debug, PartialEq, Eq, Structural)]
pub enum CacheOpen {
    /// There is a manifest: the cache is used, or refused with a reason.
    Reuse,
    Build,
    /// Something else is there, and the boundaries would be settled anew.
    Refuse,
}

/// What is done with a directory that was given for a cache. `holds_files`: it is there and not
/// empty. Where the boundaries are given, what else is there does not stand in the way.
pub fn cache_open(has_manifest: bool, holds_files: bool, cuts_given: bool) -> (r: CacheOpen)
    ensures
        r == if has_manifest {
            CacheOpen::Reuse
        } else if holds_files && !cuts_given {
            CacheOpen::Refuse
        } else {
            CacheOpen::Build
        },
{
    if has_manifest {
        CacheOpen::Reuse
    } else if holds_files && !cuts_given {
        CacheOpen::Refuse
    } else {
        CacheOpen::Build
    }
}

/// Bytes that may stay in memory when the caller does not say: half of what is free, or 4 GiB
/// where that is not known or cannot be counted.
pub fn default_cache_budget(available_kib: Option<usize>) -> (r: u64)
    ensures
        r == match available_kib {
            Some(k) => if k * 1024 <= usize::MAX {
                (k * 1024) / 2
            } else {
                4_294_967_296
            },
            None => 4_294_967_296,
        },
{
    match available_kib {
        Some(k) => match k.checked_mul(1024) {
            Some(b) => (b / 2) as u64,
            None => 4_294_967_296,
        },
        None => 4_294_967_296,
    }
}

// ---- reading blocks ----

/// What of a block is read.
#[derive(Clone, Copy, Debug, PartialEq, Eq, Structural)]
pub enum ReadPlan {
    /// The whole block, and all of it is handed on.
    Whole,
    /// The whole block, because it was never checked; only the asked columns are handed on.
    WholeThenSelect,
    /// Only the asked columns.
    Columns,
}

/// Quantized blocks on disk. The hash of a block covers all of it, so a part of a block can only
/// be trusted once the whole was read and checked.
pub struct DiskCache {
    pub groups: Vec<Vec<FeatId>>,
    pub n_rows: usize,
    pub n_features: usize,
    pub block_hashes: Vec<String>,
    /// The blocks that were read whole and had the right hash.
    pub verified: Vec<bool>,
    pub cache_reads: usize,
    pub source_bytes: u64,
}

impl DiskCache {
    /// There is a hash and a mark for each block.
    pub open spec fn wf(&self) -> bool {
        &&& self.block_hashes@.len() == self.groups@.len()
        &&& self.verified@.len() == self.groups@.len()
    }

    /// A cache of which nothing was read.
    pub fn new(
        groups: Vec<Vec<FeatId>>,
        n_rows: usize,
        n_features: usize,
        block_hashes: Vec<String>,
    ) -> (r: Self)
        requires
            block_hashes@.len() == groups@.len(),
        ensures
            r.wf(),
            r.groups == groups,
            r.n_rows == n_rows,
            r.n_features == n_features,
            r.block_hashes == block_hashes,
            forall|i: int| 0 <= i < groups@.len() ==> !(#[trigger] r.verified@[i]),
            r.cache_reads == 0,
            r.source_bytes == 0,
    {
        let mut verified: Vec<bool> = Vec::new();
        let mut i: usize = 0;
        while i < groups.len()
            invariant
                i <= groups@.len(),
                verified@.len() == i,
                forall|k: int| 0 <= k < i ==> !(#[trigger] verified@[k]),
            decreases groups.len() - i,
        {
            verified.push(false);
            i += 1;
        }
        DiskCache {
            groups,
            n_rows,
            n_features,
            block_hashes,
            verified,
            cache_reads: 0,
            source_bytes: 0,
        }
    }

    /// What of a block has to be read for so many of its columns.
    pub open spec fn plan_of(&self, i: int, n_cols: int) -> ReadPlan {
        if n_cols == 0 || n_cols == self.groups@[i]@.len() {
            ReadPlan::Whole
        } else if !self.verified@[i] {
            ReadPlan::WholeThenSelect
        } else {
            ReadPlan::Columns
        }
    }

    /// What of a block has to be read for some of its columns. No columns means all of them.
    pub fn read_plan(&self, i: usize, n_cols: usize) -> (r: Result<ReadPlan, CacheError>)
        requires
            self.wf(),
        ensures
            r == if i >= self.groups@.len() {
                Err::<ReadPlan, CacheError>(CacheError::NoBlock { block: i })
            } else {
                Ok(self.plan_of(i as int, n_cols as int))
            },
    {
        if i >= self.groups.len() {
            return Err(CacheError::NoBlock { block: i });
        }
        if n_cols == 0 || n_cols == self.groups[i].len() {
            return Ok(ReadPlan::Whole);
        }
        if !self.verified[i] {
            return Ok(ReadPlan::WholeThenSelect);
        }
        Ok(ReadPlan::Columns)
    }

    /// Takes the bytes of a whole block and their hash. A block has to have the right length, and
    /// the first time it is read the right hash: damage that keeps the length is found then. Later
    /// the hash is not looked at.
    pub fn take_hashed(&mut self, i: usize, data: Vec<Bin>, actual: &str) -> (r: Result<
        ColumnBlock,
        CacheError,
    >)
        requires
            old(self).wf(),
        ensures
            final(self).wf(),
            final(self).groups == old(self).groups,
            final(self).n_rows == old(self).n_rows,
            final(self).n_features == old(self).n_features,
            final(self).block_hashes == old(self).block_hashes,
            final(self).cache_reads == counted(old(self).cache_reads),
            match r {
                Err(CacheError::NoBlock { block }) => block == i && i >= old(self).groups@.len()
                    && final(self).verified == old(self).verified && final(self).source_bytes
                    == old(self).source_bytes,
                Err(CacheError::BlockLength { block }) => block == i && i < old(self).groups@.len()
                    && data@.len() != old(self).groups@[i as int]@.len() * old(self).n_rows
                    && final(self).verified == old(self).verified && final(self).source_bytes
                    == old(self).source_bytes,
                Err(CacheError::Checksum { block }) => {
                    &&& block == i && i < old(self).groups@.len()
                    &&& data@.len() == old(self).groups@[i as int]@.len() * old(self).n_rows
                    &&& !old(self).verified@[i as int]
                    &&& actual@ != old(self).block_hashes@[i as int]@
                    &&& final(self).verified == old(self).verified
                    &&& final(self).source_bytes == (old(self).source_bytes + data@.len()) % (
                    u64::MAX + 1)
                },
                Err(_) => false,
                Ok(b) => {
                    &&& i < old(self).groups@.len()
                    &&& old(self).verified@[i as int] || actual@ == old(
                        self,
                    ).block_hashes@[i as int]@
                    &&& b.wf()
                    &&& b.feat_ids@ == old(self).groups@[i as int]@
                    &&& b.data == data
                    &&& b.n_rows == old(self).n_rows
                    &&& final(self).verified@ == old(self).verified@.update(i as int, true)
                    &&& final(self).source_bytes == (old(self).source_bytes + data@.len()) % (
                    u64::MAX + 1)
                },
            },
    {
        self.cache_reads = count(self.cache_reads);
        if i >= self.groups.len() {
            return Err(CacheError::NoBlock { block: i });
        }
        let len: usize = data.len();
        let fits: bool = match self.groups[i].len().checked_mul(self.n_rows) {
            Some(e) => e == len,
            None => false,
        };
        if !fits {
            return Err(CacheError::BlockLength { block: i });
        }
        self.source_bytes = self.source_bytes.wrapping_add(len as u64);
        if !self.verified[i] {
            if !same_text(actual, self.block_hashes[i].as_str()) {
                return Err(CacheError::Checksum { block: i });
            }
            self.verified.set(i, true);
        } else {
            assert(self.verified@ =~= self.verified@.update(i as int, true));
        }
        let feat_ids: Vec<FeatId> = copy_feats(&self.groups[i]);
        Ok(ColumnBlock { feat_ids, data, n_rows: self.n_rows })
    }

    /// Takes the bytes of a whole block. The first time a block is read, its hash is checked.
    pub fn take_block(&mut self, i: usize, data: Vec<Bin>) -> (r: Result<ColumnBlock, CacheError>)
        requires
            old(self).wf(),
        ensures
            final(self).wf(),
            final(self).groups == old(self).groups,
            final(self).n_rows == old(self).n_rows,
            final(self).n_features == old(self).n_features,
            final(self).block_hashes == old(self).block_hashes,
            final(self).cache_reads == counted(old(self).cache_reads),
            match r {
                Err(CacheError::NoBlock { block }) => block == i && i >= old(self).groups@.len()
                    && final(self).verified == old(self).verified && final(self).source_bytes
                    == old(self).source_bytes,
                Err(CacheError::BlockLength { block }) => block == i && i < old(self).groups@.len()
                    && data@.len() != old(self).groups@[i as int]@.len() * old(self).n_rows
                    && final(self).verified == old(self).verified && final(self).source_bytes
                    == old(self).source_bytes,
                Err(CacheError::Checksum { block }) => {
                    &&& block == i && i < old(self).groups@.len()
                    &&& data@.len() == old(self).groups@[i as int]@.len() * old(self).n_rows
                    &&& !old(self).verified@[i as int]
                    &&& blake3_hex(data@) != old(self).block_hashes@[i as int]@
                    &&& final(self).verified == old(self).verified
                    &&& final(self).source_bytes == (old(self).source_bytes + data@.len()) % (
                    u64::MAX + 1)
                },
                Err(_) => false,
                Ok(b) => {
                    &&& i < old(self).groups@.len()
                    &&& old(self).verified@[i as int] || blake3_hex(data@) == old(
                        self,
                    ).block_hashes@[i as int]@
                    &&& b.wf()
                    &&& b.feat_ids@ == old(self).groups@[i as int]@
                    &&& b.data == data
                    &&& b.n_rows == old(self).n_rows
                    &&& final(self).verified@ == old(self).verified@.update(i as int, true)
                    &&& final(self).source_bytes == (old(self).source_bytes + data@.len()) % (
                    u64::MAX + 1)
                },
            },
    {
        if i < self.groups.len() && !self.verified[i] {
            let actual: String = block_hash(data.as_slice());
            self.take_hashed(i, data, actual.as_str())
        } else {
            self.take_hashed(i, data, "")
        }
    }

    /// Where a column lies in the file of its block: columns follow one another, so one column is
    /// one run of bytes.
    pub fn column_range(&self, i: usize, column: usize) -> (r: Result<(usize, usize), CacheError>)
        requires
            self.wf(),
            i < self.groups@.len(),
            self.groups@[i as int]@.len() * self.n_rows <= usize::MAX,
        ensures
            r == if column >= self.groups@[i as int]@.len() {
                Err::<(usize, usize), CacheError>(CacheError::NoColumn { block: i, column })
            } else {
                Ok(((column * self.n_rows) as usize, self.n_rows))
            },
    {
        if column >= self.groups[i].len() {
            return Err(CacheError::NoColumn { block: i, column });
        }
        proof {
            let n = self.groups@[i as int]@.len();
            assert(0 <= column * self.n_rows <= n * self.n_rows) by (nonlinear_arith)
                requires
                    0 <= column < n,
                    0 <= self.n_rows,
            ;
        }
        Ok((column * self.n_rows, self.n_rows))
    }

    /// Takes the bytes of the asked columns of a block that was checked before.
    pub fn take_columns(&mut self, i: usize, cols: &[usize], data: Vec<Bin>) -> (r: Result<
        ColumnBlock,
        CacheError,
    >)
        requires
            old(self).wf(),
            i < old(self).groups@.len(),
            data@.len() == cols@.len() * old(self).n_rows,
        ensures
            final(self).wf(),
            final(self).groups == old(self).groups,
            final(self).n_rows == old(self).n_rows,
            final(self).n_features == old(self).n_features,
            final(self).block_hashes == old(self).block_hashes,
            final(self).verified == old(self).verified,
            match r {
                Ok(b) => {
                    &&& columns_ok(cols@, old(self).groups@[i as int]@.len() as int)
                    &&& b.wf()
                    &&& b.n_rows == old(self).n_rows
                    &&& b.data == data
                    &&& b.feat_ids@ == picked_feats(old(self).groups@[i as int]@, cols@)
                    &&& final(self).cache_reads == counted(old(self).cache_reads)
                    &&& final(self).source_bytes == (old(self).source_bytes + data@.len()) % (
                    u64::MAX + 1)
                },
                Err(e) => {
                    &&& e matches CacheError::NoColumn { block, column } && block == i
                        && first_bad_column(
                        cols@,
                        old(self).groups@[i as int]@.len() as int,
                        column,
                    )
                    &&& *final(self) == *old(self)
                },
            },
    {
        let feat_ids: Vec<FeatId> = match pick_feats(&self.groups[i], cols) {
            Err(column) => {
                return Err(CacheError::NoColumn { block: i, column });
            },
            Ok(f) => f,
        };
        assert(picked_feats(self.groups@[i as int]@, cols@).len() == cols@.len());
        let len: usize = data.len();
        self.cache_reads = count(self.cache_reads);
        self.source_bytes = self.source_bytes.wrapping_add(len as u64);
        Ok(ColumnBlock { feat_ids, data, n_rows: self.n_rows })
    }

    /// Takes the bytes that were read of a block as planned, and hands on the asked columns: those
    /// of a block that is read for the first time are selected from the whole of it, once its hash
    /// was checked.
    pub fn take_read(&mut self, i: usize, cols: &[usize], plan: ReadPlan, data: Vec<Bin>) -> (r:
        Result<ColumnBlock, CacheError>)
        requires
            old(self).wf(),
            plan == ReadPlan::Columns ==> i < old(self).groups@.len() && data@.len() == cols@.len()
                * old(self).n_rows,
        ensures
            final(self).wf(),
            is_read(*old(self), *final(self), i, cols@, plan, data@, r),
    {
        let ghost before = *self;
        let ghost bytes = data@;
        match plan {
            ReadPlan::Columns => self.take_columns(i, cols, data),
            ReadPlan::Whole => self.take_block(i, data),
            ReadPlan::WholeThenSelect => {
                let whole: ColumnBlock = match self.take_block(i, data) {
                    Err(e) => {
                        return Err(e);
                    },
                    Ok(b) => b,
                };
                let r: Result<ColumnBlock, CacheError> = select_columns(&whole, cols, i);
                proof {
                    if let Ok(ref b) = r {
                        assert forall|k: int| 0 <= k < cols@.len() implies #[trigger] b.spec_column(
                            k,
                        ) == column_in_file(bytes, before.n_rows as int, cols@[k] as int) by {
                            assert(b.spec_column(k) == whole.spec_column(cols@[k] as int));
                        }
                    }
                }
                r
            },
        }
    }

    /// Where a feature is: its block, and its place there.
    pub fn locate(&self, feat: FeatId) -> (r: Result<(usize, usize), CacheError>)
        ensures
            match r {
                Ok(p) => p.0 < self.groups@.len() && p.1 < self.groups@[p.0 as int]@.len()
                    && self.groups@[p.0 as int]@[p.1 as int] == feat,
                Err(e) => e == CacheError::NoFeature { feat, features: self.n_features }
                    && forall|b: int, l: int|
                    0 <= b < self.groups@.len() && 0 <= l < self.groups@[b]@.len() ==> (
                    #[trigger] self.groups@[b]@[l]) != feat,
            },
    {
        let mut b: usize = 0;
        while b < self.groups.len()
            invariant
                b <= self.groups@.len(),
                forall|k: int, l: int|
                    0 <= k < b && 0 <= l < self.groups@[k]@.len() ==> (
                    #[trigger] self.groups@[k]@[l]) != feat,
            decreases self.groups.len() - b,
        {
            let group: &Vec<FeatId> = &self.groups[b];
            let mut l: usize = 0;
            while l < group.len()
                invariant
                    b < self.groups@.len(),
                    group@ == self.groups@[b as int]@,
                    l <= group@.len(),
                    forall|q: int| 0 <= q < l ==> (#[trigger] group@[q]) != feat,
                decreases group.len() - l,
            {
                if group[l] == feat {
                    return Ok((b, l));
                }
                l += 1;
            }
            b += 1;
        }
        Err(CacheError::NoFeature { feat, features: self.n_features })
    }
}

/// One more; after the largest number comes zero.
pub open spec fn counted(n: usize) -> usize {
    if n == usize::MAX {
        0
    } else {
        (n + 1) as usize
    }
}

fn count(n: usize) -> (r: usize)
    ensures
        r == counted(n),
{
    if n == usize::MAX {
        0
    } else {
        n + 1
    }
}

/// Every asked column is one of the block.
pub open spec fn columns_ok(cols: Seq<usize>, n: int) -> bool {
    forall|s: int| 0 <= s < cols.len() ==> (#[trigger] cols[s]) < n
}

/// The first asked column that the block does not have.
pub open spec fn first_bad_column(cols: Seq<usize>, n: int, column: usize) -> bool {
    exists|s: int|
        0 <= s < cols.len() && (#[trigger] cols[s]) == column && column >= n && columns_ok(
            cols.take(s),
            n,
        )
}

/// The features of the asked columns.
pub open spec fn picked_feats(feats: Seq<FeatId>, cols: Seq<usize>) -> Seq<FeatId> {
    cols.map_values(|l: usize| feats[l as int])
}

fn copy_feats(feats: &Vec<FeatId>) -> (r: Vec<FeatId>)
    ensures
        r@ == feats@,
{
    let mut r: Vec<FeatId> = Vec::new();
    let mut i: usize = 0;
    while i < feats.len()
        invariant
            i <= feats@.len(),
            r@ == feats@.take(i as int),
        decreases feats.len() - i,
    {
        r.push(feats[i]);
        assert(feats@.take(i + 1) =~= feats@.take(i as int).push(feats@[i as int]));
        i += 1;
    }
    assert(feats@.take(i as int) =~= feats@);
    r
}

fn pick_feats(feats: &Vec<FeatId>, cols: &[usize]) -> (r: Result<Vec<FeatId>, usize>)
    ensures
        match r {
            Ok(f) => columns_ok(cols@, feats@.len() as int) && f@ == picked_feats(feats@, cols@),
            Err(column) => first_bad_column(cols@, feats@.len() as int, column),
        },
{
    let mut f: Vec<FeatId> = Vec::new();
    let mut s: usize = 0;
    while s < cols.len()
        invariant
            s <= cols@.len(),
            f@.len() == s,
            forall|k: int|
                0 <= k < s ==> (#[trigger] cols@[k]) < feats@.len() && f@[k]
                    == feats@[cols@[k] as int],
        decreases cols.len() - s,
    {
        let l: usize = cols[s];
        if l >= feats.len() {
            proof {
                assert(columns_ok(cols@.take(s as int), feats@.len() as int)) by {
                    assert forall|k: int| 0 <= k < s implies (#[trigger] cols@.take(s as int)[k])
                        < feats@.len() by {
                        assert(cols@[k] < feats@.len());
                    }
                }
                assert(cols@[s as int] == l);
            }
            return Err(l);
        }
        f.push(feats[l]);
        s += 1;
    }
    assert(f@ =~= picked_feats(feats@, cols@));
    Ok(f)
}

/// Only the asked columns of a block, in the order in which they were asked for.
pub fn select_columns(block: &ColumnBlock, cols: &[usize], at: usize) -> (r: Result<
    ColumnBlock,
    CacheError,
>)
    requires
        block.wf(),
    ensures
        match r {
            Ok(b) => {
                &&& columns_ok(cols@, block.feat_ids@.len() as int)
                &&& b.wf()
                &&& b.n_rows == block.n_rows
                &&& b.feat_ids@ == picked_feats(block.feat_ids@, cols@)
                &&& forall|s: int|
                    0 <= s < cols@.len() ==> #[trigger] b.spec_column(s) == block.spec_column(
                        cols@[s] as int,
                    )
            },
            Err(e) => e matches CacheError::NoColumn { block: b, column } && b == at
                && first_bad_column(cols@, block.feat_ids@.len() as int, column),
        },
{
    let feat_ids: Vec<FeatId> = match pick_feats(&block.feat_ids, cols) {
        Err(column) => {
            return Err(CacheError::NoColumn { block: at, column });
        },
        Ok(f) => f,
    };
    let n_rows: usize = block.n_rows;
    let mut data: Vec<Bin> = Vec::new();
    let mut s: usize = 0;
    while s < cols.len()
        invariant
            s <= cols@.len(),
            block.wf(),
            n_rows == block.n_rows,
            columns_ok(cols@, block.feat_ids@.len() as int),
            data@.len() == s * n_rows,
            forall|k: int|
                0 <= k < s ==> #[trigger] data@.subrange(k * n_rows, k * n_rows + n_rows)
                    == block.spec_column(cols@[k] as int),
        decreases cols.len() - s,
    {
        assert(cols@[s as int] < block.feat_ids@.len());
        let column: &[Bin] = block.column(cols[s]);
        let ghost before = data@;
        let mut i: usize = 0;
        assert(before + column@.take(0) =~= before);
        while i < column.len()
            invariant
                i <= column@.len(),
                data@ == before + column@.take(i as int),
            decreases column.len() - i,
        {
            data.push(column[i]);
            assert(before + column@.take(i + 1) =~= (before + column@.take(i as int)).push(
                column@[i as int],
            ));
            i += 1;
        }
        proof {
            assert(column@.take(i as int) =~= column@);
            assert((s + 1) * n_rows == s * n_rows + n_rows) by (nonlinear_arith);
            assert forall|k: int| 0 <= k < s + 1 implies #[trigger] data@.subrange(
                k * n_rows,
                k * n_rows + n_rows,
            ) == block.spec_column(cols@[k] as int) by {
                if k < s {
                    assert(0 <= k * n_rows && k * n_rows + n_rows <= s * n_rows)
                        by (nonlinear_arith)
                        requires
                            0 <= k < s,
                            0 <= n_rows,
                    ;
                    assert(data@.subrange(k * n_rows, k * n_rows + n_rows) =~= before.subrange(
                        k * n_rows,
                        k * n_rows + n_rows,
                    ));
                } else {
                    assert(k == s);
                    assert(data@.subrange(k * n_rows, k * n_rows + n_rows) =~= column@);
                }
            }
        }
        s += 1;
    }
    let b: ColumnBlock = ColumnBlock { feat_ids, data, n_rows };
    assert forall|k: int| 0 <= k < cols@.len() implies #[trigger] b.spec_column(k)
        == block.spec_column(cols@[k] as int) by {
        assert(data@.subrange(k * n_rows, k * n_rows + n_rows) == block.spec_column(
            cols@[k] as int,
        ));
    }
    Ok(b)
}

/// A column in the file of its block.
pub open spec fn column_in_file(file: Seq<Bin>, n_rows: int, column: int) -> Seq<Bin> {
    file.subrange(column * n_rows, column * n_rows + n_rows)
}

/// A block has the features of these columns and their bins, in their order.
pub open spec fn has_columns_of(
    b: ColumnBlock,
    file: Seq<Bin>,
    feats: Seq<FeatId>,
    n_rows: usize,
    cols: Seq<usize>,
) -> bool {
    &&& b.wf()
    &&& b.n_rows == n_rows
    &&& b.feat_ids@ == picked_feats(feats, cols)
    &&& forall|s: int|
        0 <= s < cols.len() ==> #[trigger] b.spec_column(s) == column_in_file(
            file,
            n_rows as int,
            cols[s] as int,
        )
}

/// The bytes of a whole block are refused.
pub open spec fn is_block_error(c: DiskCache, i: usize, data: Seq<Bin>, e: CacheError) -> bool {
    match e {
        CacheError::NoBlock { block } => block == i && i >= c.groups@.len(),
        CacheError::BlockLength { block } => {
            &&& block == i && i < c.groups@.len()
            &&& data.len() != c.groups@[i as int]@.len() * c.n_rows
        },
        CacheError::Checksum { block } => {
            &&& block == i && i < c.groups@.len()
            &&& data.len() == c.groups@[i as int]@.len() * c.n_rows
            &&& !c.verified@[i as int]
            &&& blake3_hex(data) != c.block_hashes@[i as int]@
        },
        _ => false,
    }
}

/// The bytes of a whole block are taken: they have the right length, and the right hash or one that
/// was checked before.
pub open spec fn takes_block(c: DiskCache, i: usize, data: Seq<Bin>) -> bool {
    &&& i < c.groups@.len()
    &&& data.len() == c.groups@[i as int]@.len() * c.n_rows
    &&& c.verified@[i as int] || blake3_hex(data) == c.block_hashes@[i as int]@
}

/// What comes of the bytes that were read of a block as planned.
pub open spec fn is_read(
    before: DiskCache,
    after: DiskCache,
    i: usize,
    cols: Seq<usize>,
    plan: ReadPlan,
    data: Seq<Bin>,
    r: Result<ColumnBlock, CacheError>,
) -> bool {
    let feats = before.groups@[i as int]@;
    &&& after.groups == before.groups && after.n_rows == before.n_rows
    &&& after.block_hashes == before.block_hashes && after.n_features == before.n_features
    &&& match (plan, r) {
        (ReadPlan::Columns, Err(e)) => {
            &&& e matches CacheError::NoColumn { block, column } && block == i
                && first_bad_column(cols, feats.len() as int, column)
            &&& after == before
        },
        (ReadPlan::Columns, Ok(b)) => {
            &&& columns_ok(cols, feats.len() as int)
            &&& b.wf() && b.n_rows == before.n_rows
            &&& b.feat_ids@ == picked_feats(feats, cols) && b.data@ == data
            &&& after.verified == before.verified
            &&& after.cache_reads == counted(before.cache_reads)
            &&& after.source_bytes == (before.source_bytes + data.len()) % (u64::MAX + 1)
        },
        (ReadPlan::WholeThenSelect, Err(CacheError::NoColumn { block, column })) => {
            &&& takes_block(before, i, data)
            &&& block == i && first_bad_column(cols, feats.len() as int, column)
            &&& after.verified@ == before.verified@.update(i as int, true)
            &&& after.cache_reads == counted(before.cache_reads)
            &&& after.source_bytes == (before.source_bytes + data.len()) % (u64::MAX + 1)
        },
        (_, Err(e)) => {
            &&& is_block_error(before, i, data, e)
            &&& after.verified == before.verified
            &&& after.cache_reads == counted(before.cache_reads)
            &&& after.source_bytes == if e is Checksum {
                (before.source_bytes + data.len()) % (u64::MAX + 1)
            } else {
                before.source_bytes as int
            }
        },
        (_, Ok(b)) => {
            &&& takes_block(before, i, data)
            &&& if plan == ReadPlan::Whole {
                b.wf() && b.n_rows == before.n_rows && b.feat_ids@ == feats && b.data@ == data
            } else {
                columns_ok(cols, feats.len() as int) && has_columns_of(
                    b,
                    data,
                    feats,
                    before.n_rows,
                    cols,
                )
            }
            &&& after.verified@ == before.verified@.update(i as int, true)
            &&& after.cache_reads == counted(before.cache_reads)
            &&& after.source_bytes == (before.source_bytes + data.len()) % (u64::MAX + 1)
        },
    }
}

/// The bytes that are read of the file of a block as planned.
pub open spec fn planned_bytes(
    file: Seq<Bin>,
    n_rows: int,
    plan: ReadPlan,
    cols: Seq<usize>,
) -> Seq<Bin> {
    if plan == ReadPlan::Columns {
        column_runs(file, n_rows, cols)
    } else {
        file
    }
}

/// Damage that keeps the length of a block is found when it is first read, however many of its
/// columns are asked for: nothing is handed on.
pub proof fn law_damage_is_found_at_the_first_read(
    before: DiskCache,
    after: DiskCache,
    i: usize,
    cols: Seq<usize>,
    file: Seq<Bin>,
    r: Result<ColumnBlock, CacheError>,
)
    requires
        before.wf(),
        i < before.groups@.len(),
        !before.verified@[i as int],
        file.len() == before.groups@[i as int]@.len() * before.n_rows,
        blake3_hex(file) != before.block_hashes@[i as int]@,
        ({
            let plan = before.plan_of(i as int, cols.len() as int);
            let bytes = planned_bytes(file, before.n_rows as int, plan, cols);
            is_read(before, after, i, cols, plan, bytes, r)
        }),
    ensures
        r == Err::<ColumnBlock, CacheError>(CacheError::Checksum { block: i }),
        after.verified == before.verified,
{
}

/// Some columns of a block come out as they are in its file, whether the block is read for the
/// first time, and so as a whole, or was checked before, and only the columns are read. None that
/// was not asked for is handed on.
pub proof fn law_asked_columns_come_out_at_every_read(
    before: DiskCache,
    after: DiskCache,
    i: usize,
    cols: Seq<usize>,
    file: Seq<Bin>,
    r: Result<ColumnBlock, CacheError>,
)
    requires
        before.wf(),
        takes_block(before, i, file),
        cols.len() > 0,
        cols.len() != before.groups@[i as int]@.len(),
        columns_ok(cols, before.groups@[i as int]@.len() as int),
        ({
            let plan = before.plan_of(i as int, cols.len() as int);
            let bytes = planned_bytes(file, before.n_rows as int, plan, cols);
            is_read(before, after, i, cols, plan, bytes, r)
        }),
    ensures
        r matches Ok(b) && has_columns_of(
            b,
            file,
            before.groups@[i as int]@,
            before.n_rows,
            cols,
        ),
        after.verified@ == before.verified@.update(i as int, true),
{
    let feats = before.groups@[i as int]@;
    let plan = before.plan_of(i as int, cols.len() as int);
    if let Err(CacheError::NoColumn { column, .. }) = r {
        if first_bad_column(cols, feats.len() as int, column) {
            let s = choose|s: int|
                0 <= s < cols.len() && (#[trigger] cols[s]) == column && column >= feats.len()
                    && columns_ok(cols.take(s), feats.len() as int);
            assert(cols[s] < feats.len());
        }
    }
    if plan == ReadPlan::Columns {
        assert(after.verified@ =~= before.verified@.update(i as int, true));
        if let Ok(b) = r {
            assert forall|s: int| 0 <= s < cols.len() implies #[trigger] b.spec_column(s)
                == column_in_file(file, before.n_rows as int, cols[s] as int) by {
                lemma_runs(file, before.n_rows as int, cols, feats.len() as int, s);
            }
        }
    }
}

/// Some columns of a block are those of the block that is handed on when all of it is asked for,
/// whether they or the whole block were read first.
pub proof fn law_asked_columns_are_those_of_the_whole_block(
    before: DiskCache,
    after: DiskCache,
    whole_before: DiskCache,
    whole_after: DiskCache,
    i: usize,
    cols: Seq<usize>,
    file: Seq<Bin>,
    part: ColumnBlock,
    whole: ColumnBlock,
    k: int,
)
    requires
        before.wf(),
        takes_block(before, i, file),
        whole_before.groups == before.groups && whole_before.n_rows == before.n_rows,
        cols.len() > 0,
        cols.len() != before.groups@[i as int]@.len(),
        columns_ok(cols, before.groups@[i as int]@.len() as int),
        ({
            let plan = before.plan_of(i as int, cols.len() as int);
            let bytes = planned_bytes(file, before.n_rows as int, plan, cols);
            is_read(before, after, i, cols, plan, bytes, Ok(part))
        }),
        is_read(whole_before, whole_after, i, seq![], ReadPlan::Whole, file, Ok(whole)),
        0 <= k < cols.len(),
    ensures
        part.feat_ids@.len() == cols.len(),
        part.feat_ids@[k] == whole.feat_ids@[cols[k] as int],
        part.spec_column(k) == whole.spec_column(cols[k] as int),
{
    law_asked_columns_come_out_at_every_read(before, after, i, cols, file, Ok(part));
    assert(part.spec_column(k) == column_in_file(file, before.n_rows as int, cols[k] as int));
}

/// The bytes that a partial read gives: the run of each asked column, one after the other.
pub open spec fn column_runs(file: Seq<Bin>, n_rows: int, cols: Seq<usize>) -> Seq<Bin>
    decreases cols.len(),
{
    if cols.len() == 0 {
        seq![]
    } else {
        let l = cols.last() as int;
        column_runs(file, n_rows, cols.drop_last()) + file.subrange(
            l * n_rows,
            l * n_rows + n_rows,
        )
    }
}

proof fn lemma_runs(file: Seq<Bin>, n_rows: int, cols: Seq<usize>, n: int, s: int)
    requires
        n_rows >= 0,
        file.len() == n * n_rows,
        columns_ok(cols, n),
        0 <= s < cols.len(),
    ensures
        column_runs(file, n_rows, cols).len() == cols.len() * n_rows,
        column_runs(file, n_rows, cols).subrange(s * n_rows, s * n_rows + n_rows)
            == file.subrange(cols[s] * n_rows, cols[s] * n_rows + n_rows),
    decreases cols.len(),
{
    let front = cols.drop_last();
    let l = cols.last() as int;
    assert(cols[cols.len() - 1] < n);
    assert(0 <= l * n_rows && l * n_rows + n_rows <= n * n_rows) by (nonlinear_arith)
        requires
            0 <= l < n,
            n_rows >= 0,
    ;
    assert(columns_ok(front, n)) by {
        assert forall|k: int| 0 <= k < front.len() implies (#[trigger] front[k]) < n by {
            assert(cols[k] < n);
        }
    }
    let all = column_runs(file, n_rows, cols);
    let rest = column_runs(file, n_rows, front);
    let m = front.len();
    if m > 0 {
        lemma_runs(file, n_rows, front, n, 0);
    } else {
        assert(rest =~= seq![]);
        assert(0 * n_rows == 0) by (nonlinear_arith);
    }
    assert(rest.len() == m * n_rows);
    assert((m + 1) * n_rows == m * n_rows + n_rows) by (nonlinear_arith);
    if s < m {
        lemma_runs(file, n_rows, front, n, s);
        assert(0 <= s * n_rows && s * n_rows + n_rows <= m * n_rows) by (nonlinear_arith)
            requires
                0 <= s < m,
                n_rows >= 0,
        ;
        assert(all.subrange(s * n_rows, s * n_rows + n_rows) =~= rest.subrange(
            s * n_rows,
            s * n_rows + n_rows,
        ));
        assert(front[s] == cols[s]);
    } else {
        assert(s == m);
        assert(all.subrange(s * n_rows, s * n_rows + n_rows) =~= file.subrange(
            l * n_rows,
            l * n_rows + n_rows,
        ));
    }
}

/// Reading only the asked columns of a checked block gives what reading the whole block and
/// selecting them gives, column by column.
pub proof fn law_partial_read_matches_whole(
    whole: ColumnBlock,
    part: ColumnBlock,
    cols: Seq<usize>,
    s: int,
)
    requires
        whole.wf(),
        columns_ok(cols, whole.feat_ids@.len() as int),
        part.n_rows == whole.n_rows,
        part.data@ == column_runs(whole.data@, whole.n_rows as int, cols),
        0 <= s < cols.len(),
    ensures
        part.spec_column(s) == whole.spec_column(cols[s] as int),
{
    lemma_runs(
        whole.data@,
        whole.n_rows as int,
        cols,
        whole.feat_ids@.len() as int,
        s,
    );
}

} // verus!
