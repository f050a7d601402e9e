//! The stored form of a dictionary: a header, the levels one after
//! another, the number of keys, and a checksum over all that precedes it.
//! Numbers are written least significant byte first.

use vstd::prelude::*;
use vstd::bytes::{
    lemma_auto_spec_u32_to_from_le_bytes, lemma_auto_spec_u64_to_from_le_bytes,
    spec_u32_from_le_bytes, spec_u32_to_le_bytes, spec_u64_from_le_bytes, spec_u64_to_le_bytes,
    u32_from_le_bytes, u32_to_le_bytes, u64_from_le_bytes, u64_to_le_bytes,
};
use vstd::slice::slice_subrange;
use crate::bitvec::BitVector;
use crate::error::{FormatError, StateError};
use crate::level::{level_tree, LevelImage, TrieLevel, MAX_NODES, MAX_TAIL_BYTES};
use crate::trie::{append_bytes, cascade_valid, images_of, levels_of, views_of, Trie};
use crate::validate::validate;

verus! {

/// The four bytes that every stored dictionary starts with, as a number.
pub const MAGIC: u32 = 0x4952_544D;

/// The version of the format that is written, and the latest that is read.
pub const VERSION: u32 = 1;

pub const CHECKSUM_BASIS: u32 = 0x811C_9DC5;

pub const CHECKSUM_PRIME: u64 = 0x0100_0193;

/// One step of the checksum: the byte is mixed in, then the whole is
/// multiplied, keeping the low 32 bits.
pub open spec fn mix(h: u32, b: u8) -> u32 {
    (((h ^ (b as u32)) as u64 * CHECKSUM_PRIME) % 0x1_0000_0000) as u32
}

/// The checksum of `s`.
pub open spec fn checksum(s: Seq<u8>) -> u32
    decreases s.len(),
{
    if s.len() == 0 {
        CHECKSUM_BASIS
    } else {
        mix(checksum(s.drop_last()), s.last())
    }
}

pub open spec fn le32(x: int) -> Seq<u8> {
    spec_u32_to_le_bytes(x as u32)
}

pub open spec fn words_bytes(ws: Seq<u64>) -> Seq<u8> {
    Seq::new(8 * ws.len(), |k: int| spec_u64_to_le_bytes(ws[k / 8])[k % 8])
}

pub open spec fn links_bytes(ls: Seq<u32>) -> Seq<u8> {
    Seq::new(4 * ls.len(), |k: int| spec_u32_to_le_bytes(ls[k / 4])[k % 4])
}

/// One level as it is written: the number of nodes; the number of bits
/// and the words of the tree's bit vector; the words of the bit vector
/// of key ends; the length of the label store and the store itself, which
/// is made of the first bytes, the links and the tails.
pub open spec fn level_bytes(im: LevelImage) -> Seq<u8> {
    le32(im.heads.len() as int) + le32(im.louds_len as int) + words_bytes(im.louds_words)
        + words_bytes(im.terminal_words) + le32((5 * im.heads.len() + im.tails.len()) as int) + im.heads
        + links_bytes(im.links) + im.tails
}

pub open spec fn levels_bytes(ims: Seq<LevelImage>) -> Seq<u8>
    decreases ims.len(),
{
    if ims.len() == 0 {
        Seq::empty()
    } else {
        levels_bytes(ims.drop_last()) + level_bytes(ims.last())
    }
}

/// All of a stored dictionary but its checksum.
pub open spec fn body_bytes(ims: Seq<LevelImage>, key_count: int) -> Seq<u8> {
    le32(MAGIC as int) + le32(VERSION as int) + le32(ims.len() as int) + levels_bytes(ims) + le32(
        key_count,
    )
}

/// A stored dictionary.
pub open spec fn file_bytes(ims: Seq<LevelImage>, key_count: int) -> Seq<u8> {
    body_bytes(ims, key_count) + spec_u32_to_le_bytes(checksum(body_bytes(ims, key_count)))
}

/// The number written at `pos`.
pub open spec fn get32(b: Seq<u8>, pos: int) -> u32 {
    spec_u32_from_le_bytes(b.subrange(pos, pos + 4))
}

pub open spec fn get_words(b: Seq<u8>, pos: int, count: int) -> Seq<u64> {
    Seq::new(count as nat, |i: int| spec_u64_from_le_bytes(b.subrange(pos + 8 * i, pos + 8 * i + 8)))
}

pub open spec fn get_links(b: Seq<u8>, pos: int, count: int) -> Seq<u32> {
    Seq::new(count as nat, |i: int| get32(b, pos + 4 * i))
}

/// The level written at `pos` and where it ends, if a whole level stands
/// there.
pub open spec fn parse_level(b: Seq<u8>, pos: int) -> Option<(LevelImage, int)> {
    if pos + 8 > b.len() {
        None
    } else {
        let n = get32(b, pos) as int;
        let bits = get32(b, pos + 4) as int;
        let wc = (bits + 63) / 64;
        let words_at = pos + 8;
        if words_at + 16 * wc + 4 > b.len() {
            None
        } else {
            let blob_at = words_at + 16 * wc;
            let blob = get32(b, blob_at) as int;
            let heads_at = blob_at + 4;
            if blob < 5 * n || heads_at + blob > b.len() {
                None
            } else {
                Some(
                    (
                        LevelImage {
                            louds_len: bits as nat,
                            louds_words: get_words(b, words_at, wc),
                            terminal_len: bits as nat,
                            terminal_words: get_words(b, words_at + 8 * wc, wc),
                            heads: b.subrange(heads_at, heads_at + n),
                            links: get_links(b, heads_at + n, n),
                            tails: b.subrange(heads_at + 5 * n, heads_at + blob),
                        },
                        heads_at + blob,
                    ),
                )
            }
        }
    }
}

/// The first `count` levels written behind the header, and where they end.
pub open spec fn parse_levels(b: Seq<u8>, count: int) -> Option<(Seq<LevelImage>, int)>
    decreases count,
{
    if count <= 0 {
        Some((Seq::empty(), 12))
    } else {
        match parse_levels(b, count - 1) {
            None => None,
            Some((ims, pos)) => match parse_level(b, pos) {
                None => None,
                Some((im, next)) => Some((ims.push(im), next)),
            },
        }
    }
}

/// The levels are a cascade in order, written in canonical form, and
/// `key_count` is the number of keys they hold.
pub open spec fn image_valid(ims: Seq<LevelImage>, key_count: int) -> bool {
    &&& forall|j: int| 0 <= j < ims.len() ==> (#[trigger] ims[j]).packed()
    &&& cascade_valid(levels_of(ims))
    &&& key_count == level_tree(levels_of(ims), ims.len() - 1).num_keys()
}

/// The header of `b` is that of this version, and the checksum is right.
pub open spec fn header_ok(b: Seq<u8>) -> bool {
    &&& b.len() >= 20
    &&& get32(b, 0) == MAGIC
    &&& get32(b, 4) == VERSION
    &&& get32(b, b.len() - 4) == checksum(b.subrange(0, b.len() - 4))
}

/// What `b` holds: the levels of a dictionary, or the reason why not.
pub open spec fn decode(b: Seq<u8>) -> Result<Seq<LevelImage>, FormatError> {
    if b.len() < 20 {
        Err(FormatError::CorruptFormat)
    } else if get32(b, 0) != MAGIC {
        Err(FormatError::CorruptFormat)
    } else if get32(b, 4) > VERSION {
        Err(FormatError::VersionMismatch)
    } else if get32(b, 4) < VERSION {
        Err(FormatError::CorruptFormat)
    } else if get32(b, b.len() - 4) != checksum(b.subrange(0, b.len() - 4)) {
        Err(FormatError::CorruptFormat)
    } else {
        match parse_levels(b, get32(b, 8) as int) {
            None => Err(FormatError::CorruptFormat),
            Some((ims, pos)) => if pos + 8 != b.len() || !image_valid(ims, get32(b, pos) as int) {
                Err(FormatError::CorruptFormat)
            } else {
                Ok(ims)
            },
        }
    }
}

/// If the first `count` levels can be read, so can the first `k` of them,
/// and they are the same.
pub proof fn lemma_parse_prefix(b: Seq<u8>, count: int, k: int)
    requires
        0 <= k <= count,
        parse_levels(b, count) is Some,
    ensures
        parse_levels(b, k) is Some,
        parse_levels(b, k)->Some_0.0 == parse_levels(b, count)->Some_0.0.take(k),
    decreases count,
{
    let ims = parse_levels(b, count)->Some_0.0;
    if count > 0 {
        lemma_parse_count(b, count);
    }
    if k == count {
        lemma_parse_count(b, count);
        assert(ims.take(k) =~= ims);
    } else {
        lemma_parse_prefix(b, count - 1, k);
        let before = parse_levels(b, count - 1)->Some_0.0;
        lemma_parse_count(b, count - 1);
        assert(before.take(k) =~= ims.take(k));
    }
}

pub proof fn lemma_parse_count(b: Seq<u8>, count: int)
    requires
        0 <= count,
        parse_levels(b, count) is Some,
    ensures
        parse_levels(b, count)->Some_0.0.len() == count,
        12 <= parse_levels(b, count)->Some_0.1 <= b.len() || count == 0,
    decreases count,
{
    if count > 0 {
        lemma_parse_count(b, count - 1);
    }
}

fn mix_in(h: u32, b: u8) -> (r: u32)
    ensures
        r == mix(h, b),
{
    let x: u64 = (h ^ (b as u32)) as u64;
    ((x * CHECKSUM_PRIME) % 0x1_0000_0000) as u32
}

/// The checksum of the first `end` bytes.
pub fn checksum_of(bytes: &[u8], end: usize) -> (r: u32)
    requires
        end <= bytes@.len(),
    ensures
        r == checksum(bytes@.subrange(0, end as int)),
{
    let mut h: u32 = CHECKSUM_BASIS;
    let mut i: usize = 0;
    while i < end
        invariant
            i <= end <= bytes@.len(),
            h == checksum(bytes@.subrange(0, i as int)),
        decreases end - i,
    {
        proof {
            assert(bytes@.subrange(0, i + 1).drop_last() =~= bytes@.subrange(0, i as int));
        }
        h = mix_in(h, bytes[i]);
        i = i + 1;
    }
    h
}

fn put32(out: &mut Vec<u8>, x: u32)
    ensures
        final(out)@ == old(out)@ + spec_u32_to_le_bytes(x),
{
    let b = u32_to_le_bytes(x);
    append_bytes(out, b.as_slice(), 0, 4);
    assert(b@.subrange(0, 4) =~= b@);
}

fn put_words(out: &mut Vec<u8>, ws: &Vec<u64>)
    ensures
        final(out)@ == old(out)@ + words_bytes(ws@),
{
    let ghost base = out@;
    let mut i: usize = 0;
    assert(words_bytes(ws@.take(0)) =~= Seq::<u8>::empty());
    while i < ws.len()
        invariant
            i <= ws@.len(),
            out@ == base + words_bytes(ws@.take(i as int)),
        decreases ws@.len() - i,
    {
        let b = u64_to_le_bytes(ws[i]);
        let ghost before = out@;
        append_bytes(out, b.as_slice(), 0, 8);
        proof {
            assert(b@.subrange(0, 8) =~= b@);
            lemma_auto_spec_u64_to_from_le_bytes();
            assert(words_bytes(ws@.take(i + 1)) =~= words_bytes(ws@.take(i as int)) + b@);
        }
        i = i + 1;
    }
    assert(ws@.take(i as int) =~= ws@);
}

fn put_links(out: &mut Vec<u8>, ls: &Vec<u32>)
    ensures
        final(out)@ == old(out)@ + links_bytes(ls@),
{
    let ghost base = out@;
    let mut i: usize = 0;
    assert(links_bytes(ls@.take(0)) =~= Seq::<u8>::empty());
    while i < ls.len()
        invariant
            i <= ls@.len(),
            out@ == base + links_bytes(ls@.take(i as int)),
        decreases ls@.len() - i,
    {
        let b = u32_to_le_bytes(ls[i]);
        let ghost before = out@;
        append_bytes(out, b.as_slice(), 0, 4);
        proof {
            assert(b@.subrange(0, 4) =~= b@);
            lemma_auto_spec_u32_to_from_le_bytes();
            assert(links_bytes(ls@.take(i + 1)) =~= links_bytes(ls@.take(i as int)) + b@);
        }
        i = i + 1;
    }
    assert(ls@.take(i as int) =~= ls@);
}

fn put_level(out: &mut Vec<u8>, level: &TrieLevel)
    requires
        level.wf(),
        level@.heads.len() <= MAX_NODES,
        level@.tails.len() <= MAX_TAIL_BYTES,
    ensures
        final(out)@ == old(out)@ + level_bytes(level.image()),
{
    let ghost base = out@;
    let ghost im = level.image();
    let n = level.nodes();
    let tails = level.tails();
    let ghost s1 = le32(im.heads.len() as int);
    let ghost s2 = le32(im.louds_len as int);
    let ghost s3 = words_bytes(im.louds_words);
    let ghost s4 = words_bytes(im.terminal_words);
    let ghost s5 = le32((5 * im.heads.len() + im.tails.len()) as int);
    let ghost s6 = im.heads;
    let ghost s7 = links_bytes(im.links);
    proof {
        level.lemma_image();
        assert(im.level().louds.len() == im.louds_len);
    }
    put32(out, n as u32);
    put32(out, level.louds().len() as u32);
    assert(out@ =~= base + (s1 + s2));
    put_words(out, level.louds().as_words());
    assert(out@ =~= base + (s1 + s2 + s3));
    put_words(out, level.terminal().as_words());
    assert(out@ =~= base + (s1 + s2 + s3 + s4));
    put32(out, (5 * n + tails.len()) as u32);
    assert(out@ =~= base + (s1 + s2 + s3 + s4 + s5));
    append_bytes(out, level.heads().as_slice(), 0, n);
    assert(im.heads.subrange(0, n as int) =~= im.heads);
    assert(out@ =~= base + (s1 + s2 + s3 + s4 + s5 + s6));
    put_links(out, level.links());
    assert(out@ =~= base + (s1 + s2 + s3 + s4 + s5 + s6 + s7));
    append_bytes(out, tails.as_slice(), 0, tails.len());
    assert(im.tails.subrange(0, im.tails.len() as int) =~= im.tails);
    assert(out@ =~= base + (s1 + s2 + s3 + s4 + s5 + s6 + s7 + im.tails));
}

fn read32(bytes: &[u8], pos: usize) -> (x: u32)
    requires
        pos + 4 <= bytes@.len(),
    ensures
        x == get32(bytes@, pos as int),
{
    let _len = bytes.len();
    u32_from_le_bytes(slice_subrange(bytes, pos, pos + 4))
}

fn read_words(bytes: &[u8], pos: usize, count: usize) -> (r: Vec<u64>)
    requires
        pos + 8 * count <= bytes@.len(),
    ensures
        r@ == get_words(bytes@, pos as int, count as int),
{
    let mut r: Vec<u64> = Vec::new();
    let mut i: usize = 0;
    let _len = bytes.len();
    while i < count
        invariant
            bytes@.len() <= usize::MAX,
            pos + 8 * count <= bytes@.len(),
            i <= count,
            r@ == get_words(bytes@, pos as int, i as int),
        decreases count - i,
    {
        let at = pos + 8 * i;
        r.push(u64_from_le_bytes(slice_subrange(bytes, at, at + 8)));
        i = i + 1;
        assert(r@ =~= get_words(bytes@, pos as int, i as int));
    }
    r
}

fn read_links(bytes: &[u8], pos: usize, count: usize) -> (r: Vec<u32>)
    requires
        pos + 4 * count <= bytes@.len(),
    ensures
        r@ == get_links(bytes@, pos as int, count as int),
{
    let mut r: Vec<u32> = Vec::new();
    let mut i: usize = 0;
    let _len = bytes.len();
    while i < count
        invariant
            bytes@.len() <= usize::MAX,
            pos + 4 * count <= bytes@.len(),
            i <= count,
            r@ == get_links(bytes@, pos as int, i as int),
        decreases count - i,
    {
        r.push(read32(bytes, pos + 4 * i));
        i = i + 1;
        assert(r@ =~= get_links(bytes@, pos as int, i as int));
    }
    r
}

/// The parts of a level as they are read, before they are looked into.
pub struct RawLevel {
    pub bits: usize,
    pub louds_words: Vec<u64>,
    pub terminal_words: Vec<u64>,
    pub heads: Vec<u8>,
    pub links: Vec<u32>,
    pub tails: Vec<u8>,
}

impl RawLevel {
    pub open spec fn image(&self) -> LevelImage {
        LevelImage {
            louds_len: self.bits as nat,
            louds_words: self.louds_words@,
            terminal_len: self.bits as nat,
            terminal_words: self.terminal_words@,
            heads: self.heads@,
            links: self.links@,
            tails: self.tails@,
        }
    }
}

fn read_level(bytes: &[u8], pos: usize) -> (r: Option<(RawLevel, usize)>)
    requires
        pos <= bytes@.len(),
    ensures
        match r {
            Some((raw, next)) => parse_level(bytes@, pos as int) == Some(
                (raw.image(), next as int),
            ) && pos <= next <= bytes@.len(),
            None => parse_level(bytes@, pos as int) is None,
        },
{
    let len = bytes.len();
    if len - pos < 8 {
        return None;
    }
    let n = read32(bytes, pos) as usize;
    let bits = read32(bytes, pos + 4) as usize;
    let wc = bits / 64 + if bits % 64 != 0 {
        1
    } else {
        0
    };
    assert(wc == (bits + 63) / 64);
    let words_at = pos + 8;
    if len - words_at < 16 * wc + 4 {
        return None;
    }
    let blob_at = words_at + 16 * wc;
    let blob = read32(bytes, blob_at) as usize;
    let heads_at = blob_at + 4;
    if (blob as u64) < 5 * (n as u64) || len - heads_at < blob {
        return None;
    }
    let louds_words = read_words(bytes, words_at, wc);
    let terminal_words = read_words(bytes, words_at + 8 * wc, wc);
    let heads = vstd::slice::slice_to_vec(slice_subrange(bytes, heads_at, heads_at + n));
    let links = read_links(bytes, heads_at + n, n);
    let tails = vstd::slice::slice_to_vec(slice_subrange(bytes, heads_at + 5 * n, heads_at + blob));
    Some((RawLevel { bits, louds_words, terminal_words, heads, links, tails }, heads_at + blob))
}

impl Trie {
    /// The dictionary in its stored form.
    pub fn save(&self) -> (r: Result<Vec<u8>, StateError>)
        requires
            self.wf(),
        ensures
            match r {
                Ok(out) => self.is_built() && out@ == file_bytes(self.images(), self@.len() as int),
                Err(e) => !self.is_built() && e == StateError::NotBuilt,
            },
    {
        if !self.is_ready() {
            return Err(StateError::NotBuilt);
        }
        let levels = self.stored();
        let ghost ims = self.images();
        let count = levels.len();
        proof {
            self.lemma_wf();
            crate::validate::lemma_total_nodes_grows(self.levels(), 0, 0);
            lemma_levels_few(self.levels(), count as int);
        }
        let mut out: Vec<u8> = Vec::new();
        put32(&mut out, MAGIC);
        put32(&mut out, VERSION);
        put32(&mut out, count as u32);
        let ghost head = out@;
        let mut j: usize = 0;
        assert(levels_bytes(ims.take(0)) =~= Seq::<u8>::empty());
        while j < count
            invariant
                self.wf(),
                self.is_built(),
                cascade_valid(self.levels()),
                views_of(levels@) == self.levels(),
                ims == images_of(levels@),
                forall|i: int| 0 <= i < levels@.len() ==> (#[trigger] levels@[i]).wf(),
                count == levels@.len(),
                j <= count,
                out@ == head + levels_bytes(ims.take(j as int)),
            decreases count - j,
        {
            let level = &levels[j];
            proof {
                assert(crate::level::level_ok(self.levels(), j as int));
                assert(self.levels()[j as int] == level@);
                assert(ims.take(j + 1).drop_last() =~= ims.take(j as int));
            }
            put_level(&mut out, level);
            j = j + 1;
        }
        let keys = self.num_keys();
        put32(&mut out, keys as u32);
        let sum = checksum_of(out.as_slice(), out.len());
        proof {
            assert(ims.take(count as int) =~= ims);
            assert(out@ =~= body_bytes(ims, keys as int));
            assert(out@.subrange(0, out@.len() as int) =~= out@);
            self.top().lemma_num_keys();
        }
        put32(&mut out, sum);
        Ok(out)
    }

    /// The dictionary that `bytes` hold in stored form.
    pub fn load(bytes: &[u8]) -> (r: Result<Trie, FormatError>)
        ensures
            match r {
                Ok(trie) => trie.wf() && trie.is_built() && decode(bytes@) == Ok::<
                    Seq<LevelImage>,
                    FormatError,
                >(trie.images()) && bytes@ == file_bytes(trie.images(), trie@.len() as int),
                Err(e) => decode(bytes@) == Err::<Seq<LevelImage>, FormatError>(e),
            },
    {
        let ghost b = bytes@;
        let len = bytes.len();
        if len < 20 {
            return Err(FormatError::CorruptFormat);
        }
        if read32(bytes, 0) != MAGIC {
            return Err(FormatError::CorruptFormat);
        }
        let version = read32(bytes, 4);
        if version > VERSION {
            return Err(FormatError::VersionMismatch);
        }
        if version < VERSION {
            return Err(FormatError::CorruptFormat);
        }
        if read32(bytes, len - 4) != checksum_of(bytes, len - 4) {
            return Err(FormatError::CorruptFormat);
        }
        let count = read32(bytes, 8) as usize;
        let mut levels: Vec<TrieLevel> = Vec::new();
        let mut pos: usize = 12;
        let mut i: usize = 0;
        assert(images_of(levels@) =~= Seq::<LevelImage>::empty());
        while i < count
            invariant
                b == bytes@,
                len == b.len(),
                header_ok(b),
                count == get32(b, 8),
                i <= count,
                12 <= pos <= len,
                levels@.len() == i,
                forall|k: int| 0 <= k < levels@.len() ==> (#[trigger] levels@[k]).wf(),
                parse_levels(b, i as int) == Some((images_of(levels@), pos as int)),
            decreases count - i,
        {
            let ghost before = images_of(levels@);
            let (raw, next) = match read_level(bytes, pos) {
                None => {
                    proof {
                        if parse_levels(b, count as int) is Some {
                            lemma_parse_prefix(b, count as int, i + 1);
                        }
                    }
                    return Err(FormatError::CorruptFormat);
                },
                Some(found) => found,
            };
            let ghost im = raw.image();
            proof {
                assert(parse_levels(b, i + 1) == Some((before.push(im), next as int)));
                if parse_levels(b, count as int) is Some {
                    lemma_parse_prefix(b, count as int, i + 1);
                    lemma_parse_count(b, count as int);
                    let all = parse_levels(b, count as int)->Some_0.0;
                    assert(all.take(i + 1)[i as int] == im);
                    assert(all[i as int] == im);
                }
            }
            let bits = raw.bits;
            let louds = match BitVector::from_words(raw.louds_words, bits) {
                None => {
                    assert(!im.packed());
                    return Err(FormatError::CorruptFormat);
                },
                Some(v) => v,
            };
            let terminal = match BitVector::from_words(raw.terminal_words, bits) {
                None => {
                    assert(!im.packed());
                    return Err(FormatError::CorruptFormat);
                },
                Some(v) => v,
            };
            let level = TrieLevel::new(louds, terminal, raw.heads, raw.links, raw.tails);
            proof {
                assert(level.image() == im);
            }
            levels.push(level);
            proof {
                assert(images_of(levels@) =~= before.push(im));
            }
            pos = next;
            i = i + 1;
        }
        let ghost ims = images_of(levels@);
        if len - pos != 8 {
            return Err(FormatError::CorruptFormat);
        }
        let keys = read32(bytes, pos) as usize;
        proof {
            assert forall|j: int| 0 <= j < ims.len() implies (#[trigger] ims[j]).packed()
                && ims[j].level() == levels@[j]@ by {
                levels@[j].lemma_image();
            }
            assert(levels_of(ims) =~= views_of(levels@));
        }
        let total = match validate(&levels) {
            None => {
                return Err(FormatError::CorruptFormat);
            },
            Some(total) => total,
        };
        let top = &levels[levels.len() - 1];
        proof {
            assert(crate::level::level_ok(views_of(levels@), levels@.len() - 1));
            assert(views_of(levels@)[levels@.len() - 1] == top@);
            level_tree(views_of(levels@), levels@.len() - 1).lemma_num_keys();
        }
        if top.num_keys() != keys {
            return Err(FormatError::CorruptFormat);
        }
        let mut trie = Trie::new();
        trie.install(levels, total);
        proof {
            lemma_decoded_is_stored(b);
            trie.lemma_wf();
            trie.top().lemma_num_keys();
        }
        Ok(trie)
    }
}

/// A cascade has no more levels than nodes.
pub proof fn lemma_levels_few(levels: Seq<crate::level::LevelView>, upto: int)
    requires
        0 <= upto <= levels.len(),
        forall|j: int| 0 <= j < levels.len() ==> #[trigger] crate::level::level_ok(levels, j),
    ensures
        upto <= crate::trie::total_nodes(levels, upto),
    decreases upto,
{
    if upto > 0 {
        lemma_levels_few(levels, upto - 1);
        assert(crate::level::level_ok(levels, upto - 1));
    }
}

/// The lengths of a level's parts can be written in 32 bits and fit each
/// other.
pub open spec fn level_fits(im: LevelImage) -> bool {
    &&& im.heads.len() <= u32::MAX
    &&& im.louds_len <= u32::MAX
    &&& im.terminal_len == im.louds_len
    &&& im.louds_words.len() == (im.louds_len + 63) / 64
    &&& im.terminal_words.len() == (im.louds_len + 63) / 64
    &&& im.links.len() == im.heads.len()
    &&& 5 * im.heads.len() + im.tails.len() <= u32::MAX
}

/// The levels of a dictionary in order fit the format.
pub proof fn lemma_valid_fits(ims: Seq<LevelImage>, key_count: int)
    requires
        image_valid(ims, key_count),
    ensures
        forall|j: int| 0 <= j < ims.len() ==> level_fits(#[trigger] ims[j]),
        1 <= ims.len() <= u32::MAX,
        0 <= key_count <= u32::MAX,
{
    let levels = levels_of(ims);
    assert forall|j: int| 0 <= j < ims.len() implies level_fits(#[trigger] ims[j]) by {
        assert(ims[j].packed());
        assert(crate::level::level_ok(levels, j));
        assert(levels[j] == ims[j].level());
        crate::level::lemma_level_shape(levels, j);
    }
    lemma_levels_few(levels, ims.len() as int);
    let top = ims.len() - 1;
    assert(crate::level::level_ok(levels, top));
    level_tree(levels, top).lemma_num_keys();
    crate::level::lemma_level_shape(levels, top);
}

/// Where the parts of a written level stand in it.
pub proof fn lemma_level_layout(im: LevelImage)
    requires
        level_fits(im),
    ensures
        ({
            let l = level_bytes(im);
            let n = im.heads.len() as int;
            let wc = im.louds_words.len() as int;
            let heads_at = 12 + 16 * wc;
            &&& l.len() == heads_at + 5 * n + im.tails.len()
            &&& l.subrange(0, 4) == le32(n)
            &&& l.subrange(4, 8) == le32(im.louds_len as int)
            &&& l.subrange(8, 8 + 8 * wc) == words_bytes(im.louds_words)
            &&& l.subrange(8 + 8 * wc, 8 + 16 * wc) == words_bytes(im.terminal_words)
            &&& l.subrange(8 + 16 * wc, heads_at) == le32(5 * n + im.tails.len())
            &&& l.subrange(heads_at, heads_at + n) == im.heads
            &&& l.subrange(heads_at + n, heads_at + 5 * n) == links_bytes(im.links)
            &&& l.subrange(heads_at + 5 * n, l.len() as int) == im.tails
        }),
{
    lemma_auto_spec_u32_to_from_le_bytes();
    let l = level_bytes(im);
    let n = im.heads.len() as int;
    let wc = im.louds_words.len() as int;
    let heads_at = 12 + 16 * wc;
    let s1 = le32(n);
    let s2 = le32(im.louds_len as int);
    let s3 = words_bytes(im.louds_words);
    let s4 = words_bytes(im.terminal_words);
    let s5 = le32(5 * n + im.tails.len());
    let s6 = im.heads;
    let s7 = links_bytes(im.links);
    let a2 = s1 + s2;
    let a3 = a2 + s3;
    let a4 = a3 + s4;
    let a5 = a4 + s5;
    let a6 = a5 + s6;
    let a7 = a6 + s7;
    assert(l == a7 + im.tails);
    assert(a2.len() == 8);
    assert(a3.len() == 8 + 8 * wc);
    assert(a4.len() == 8 + 16 * wc);
    assert(a5.len() == heads_at);
    assert(a6.len() == heads_at + n);
    assert(a7.len() == heads_at + 5 * n);
    assert(l.subrange(heads_at + 5 * n, l.len() as int) =~= im.tails);
    assert(l.subrange(0, heads_at + 5 * n) =~= a7);
    assert(a7.subrange(heads_at + n, heads_at + 5 * n) =~= s7);
    assert(a7.subrange(0, heads_at + n) =~= a6);
    assert(a6.subrange(heads_at, heads_at + n) =~= s6);
    assert(a6.subrange(0, heads_at) =~= a5);
    assert(a5.subrange(8 + 16 * wc, heads_at) =~= s5);
    assert(a5.subrange(0, 8 + 16 * wc) =~= a4);
    assert(a4.subrange(8 + 8 * wc, 8 + 16 * wc) =~= s4);
    assert(a4.subrange(0, 8 + 8 * wc) =~= a3);
    assert(a3.subrange(8, 8 + 8 * wc) =~= s3);
    assert(a3.subrange(0, 8) =~= a2);
    assert(a2.subrange(4, 8) =~= s2);
    assert(a2.subrange(0, 4) =~= s1);
    assert(l.subrange(heads_at + n, heads_at + 5 * n) =~= a7.subrange(heads_at + n, heads_at + 5 * n));
    assert(l.subrange(heads_at, heads_at + n) =~= a6.subrange(heads_at, heads_at + n));
    assert(l.subrange(8 + 16 * wc, heads_at) =~= a5.subrange(8 + 16 * wc, heads_at));
    assert(l.subrange(8 + 8 * wc, 8 + 16 * wc) =~= a4.subrange(8 + 8 * wc, 8 + 16 * wc));
    assert(l.subrange(8, 8 + 8 * wc) =~= a3.subrange(8, 8 + 8 * wc));
    assert(l.subrange(4, 8) =~= a2.subrange(4, 8));
    assert(l.subrange(0, 4) =~= a2.subrange(0, 4));
}

/// Words that were written are read back.
pub proof fn lemma_words_read_back(b: Seq<u8>, pos: int, ws: Seq<u64>)
    requires
        0 <= pos,
        pos + 8 * ws.len() <= b.len(),
        b.subrange(pos, pos + 8 * ws.len()) == words_bytes(ws),
    ensures
        get_words(b, pos, ws.len() as int) == ws,
{
    lemma_auto_spec_u64_to_from_le_bytes();
    let wb = words_bytes(ws);
    assert forall|i: int| 0 <= i < ws.len() implies get_words(b, pos, ws.len() as int)[i]
        == ws[i] by {
        let part = b.subrange(pos + 8 * i, pos + 8 * i + 8);
        assert forall|k: int| 0 <= k < 8 implies part[k] == spec_u64_to_le_bytes(ws[i])[k] by {
            assert(b.subrange(pos, pos + 8 * ws.len())[8 * i + k] == b[pos + 8 * i + k]);
            assert(wb[8 * i + k] == spec_u64_to_le_bytes(ws[(8 * i + k) / 8])[(8 * i + k) % 8]);
        }
        assert(part =~= spec_u64_to_le_bytes(ws[i]));
    }
    assert(get_words(b, pos, ws.len() as int) =~= ws);
}

/// Links that were written are read back.
pub proof fn lemma_links_read_back(b: Seq<u8>, pos: int, ls: Seq<u32>)
    requires
        0 <= pos,
        pos + 4 * ls.len() <= b.len(),
        b.subrange(pos, pos + 4 * ls.len()) == links_bytes(ls),
    ensures
        get_links(b, pos, ls.len() as int) == ls,
{
    lemma_auto_spec_u32_to_from_le_bytes();
    let lb = links_bytes(ls);
    assert forall|i: int| 0 <= i < ls.len() implies get_links(b, pos, ls.len() as int)[i]
        == ls[i] by {
        let part = b.subrange(pos + 4 * i, pos + 4 * i + 4);
        assert forall|k: int| 0 <= k < 4 implies part[k] == spec_u32_to_le_bytes(ls[i])[k] by {
            assert(b.subrange(pos, pos + 4 * ls.len())[4 * i + k] == b[pos + 4 * i + k]);
            assert(lb[4 * i + k] == spec_u32_to_le_bytes(ls[(4 * i + k) / 4])[(4 * i + k) % 4]);
        }
        assert(part =~= spec_u32_to_le_bytes(ls[i]));
    }
    assert(get_links(b, pos, ls.len() as int) =~= ls);
}

/// A number that was written is read back.
pub proof fn lemma_number_read_back(b: Seq<u8>, pos: int, x: int)
    requires
        0 <= pos,
        pos + 4 <= b.len(),
        0 <= x <= u32::MAX,
        b.subrange(pos, pos + 4) == le32(x),
    ensures
        get32(b, pos) == x,
{
    lemma_auto_spec_u32_to_from_le_bytes();
    assert(spec_u32_to_le_bytes(x as u32).len() == 4);
}

/// A level that was written is read back.
pub proof fn lemma_level_read_back(b: Seq<u8>, pos: int, im: LevelImage)
    requires
        level_fits(im),
        0 <= pos,
        pos + level_bytes(im).len() <= b.len(),
        b.subrange(pos, pos + level_bytes(im).len()) == level_bytes(im),
    ensures
        parse_level(b, pos) == Some((im, pos + level_bytes(im).len())),
{
    lemma_level_layout(im);
    let l = level_bytes(im);
    let n = im.heads.len() as int;
    let wc = im.louds_words.len() as int;
    let words_at = pos + 8;
    let blob_at = words_at + 16 * wc;
    let heads_at = blob_at + 4;
    let blob = 5 * n + im.tails.len();
    let whole = b.subrange(pos, pos + l.len());
    assert forall|x: int, y: int| 0 <= x <= y <= l.len() implies #[trigger] b.subrange(
        pos + x,
        pos + y,
    ) == l.subrange(x, y) by {
        assert(b.subrange(pos + x, pos + y) =~= whole.subrange(x, y));
    }
    assert(b.subrange(pos + 0, pos + 4) == l.subrange(0, 4));
    lemma_number_read_back(b, pos, n);
    assert(b.subrange(pos + 4, pos + 8) == l.subrange(4, 8));
    lemma_number_read_back(b, pos + 4, im.louds_len as int);
    assert(b.subrange(pos + 8, pos + (8 + 8 * wc)) == l.subrange(8, 8 + 8 * wc));
    lemma_words_read_back(b, words_at, im.louds_words);
    assert(b.subrange(pos + (8 + 8 * wc), pos + (8 + 16 * wc)) == l.subrange(
        8 + 8 * wc,
        8 + 16 * wc,
    ));
    lemma_words_read_back(b, words_at + 8 * wc, im.terminal_words);
    assert(b.subrange(pos + (8 + 16 * wc), pos + (12 + 16 * wc)) == l.subrange(
        8 + 16 * wc,
        12 + 16 * wc,
    ));
    lemma_number_read_back(b, blob_at, blob);
    assert(b.subrange(pos + (12 + 16 * wc), pos + (12 + 16 * wc + n)) == l.subrange(
        12 + 16 * wc,
        12 + 16 * wc + n,
    ));
    assert(b.subrange(pos + (12 + 16 * wc + n), pos + (12 + 16 * wc + 5 * n)) == l.subrange(
        12 + 16 * wc + n,
        12 + 16 * wc + 5 * n,
    ));
    lemma_links_read_back(b, heads_at + n, im.links);
    assert(b.subrange(pos + (12 + 16 * wc + 5 * n), pos + l.len()) == l.subrange(
        12 + 16 * wc + 5 * n,
        l.len() as int,
    ));
    let got = parse_level(b, pos)->Some_0.0;
    assert(got.louds_words == im.louds_words);
    assert(got.terminal_words == im.terminal_words);
    assert(got.heads == im.heads);
    assert(got.links == im.links);
    assert(got.tails == im.tails);
}

/// The first levels are written first.
pub proof fn lemma_levels_prefix(ims: Seq<LevelImage>, k: int)
    requires
        0 <= k <= ims.len(),
    ensures
        levels_bytes(ims.take(k)).len() <= levels_bytes(ims).len(),
        levels_bytes(ims).subrange(0, levels_bytes(ims.take(k)).len() as int) == levels_bytes(
            ims.take(k),
        ),
    decreases ims.len() - k,
{
    if k == ims.len() {
        assert(ims.take(k) =~= ims);
        assert(levels_bytes(ims).subrange(0, levels_bytes(ims).len() as int) =~= levels_bytes(ims));
    } else {
        lemma_levels_prefix(ims, k + 1);
        assert(ims.take(k + 1).drop_last() =~= ims.take(k));
        let longer = levels_bytes(ims.take(k + 1));
        let shorter = levels_bytes(ims.take(k));
        assert(longer == shorter + level_bytes(ims[k]));
        assert(levels_bytes(ims).subrange(0, shorter.len() as int) =~= shorter);
    }
}

/// Levels that were written are read back.
pub proof fn lemma_levels_read_back(b: Seq<u8>, ims: Seq<LevelImage>, k: int)
    requires
        forall|j: int| 0 <= j < ims.len() ==> level_fits(#[trigger] ims[j]),
        12 + levels_bytes(ims).len() <= b.len(),
        b.subrange(12, 12 + levels_bytes(ims).len() as int) == levels_bytes(ims),
        0 <= k <= ims.len(),
    ensures
        parse_levels(b, k) == Some((ims.take(k), 12 + levels_bytes(ims.take(k)).len() as int)),
    decreases k,
{
    if k == 0 {
        assert(ims.take(0) =~= Seq::<LevelImage>::empty());
    } else {
        lemma_levels_read_back(b, ims, k - 1);
        lemma_levels_prefix(ims, k - 1);
        lemma_levels_prefix(ims, k);
        assert(ims.take(k).drop_last() =~= ims.take(k - 1));
        let all = levels_bytes(ims);
        let shorter = levels_bytes(ims.take(k - 1));
        let longer = levels_bytes(ims.take(k));
        let im = ims[k - 1];
        assert(longer == shorter + level_bytes(im));
        let pos = 12 + shorter.len() as int;
        assert(b.subrange(pos, pos + level_bytes(im).len() as int) =~= level_bytes(im)) by {
            assert forall|i: int| 0 <= i < level_bytes(im).len() implies b[pos + i] == level_bytes(
                im,
            )[i] by {
                assert(b.subrange(12, 12 + all.len() as int)[shorter.len() + i] == b[pos + i]);
                assert(all.subrange(0, longer.len() as int)[shorter.len() + i] == all[shorter.len()
                    + i]);
                assert(longer[shorter.len() + i] == level_bytes(im)[i]);
            }
        }
        lemma_level_read_back(b, pos, im);
        assert(ims.take(k - 1).push(im) =~= ims.take(k));
    }
}

/// What was stored reads back: the stored form of the levels of a
/// dictionary in order holds exactly those levels.
pub proof fn lemma_decode_file(ims: Seq<LevelImage>, key_count: int)
    requires
        image_valid(ims, key_count),
    ensures
        decode(file_bytes(ims, key_count)) == Ok::<Seq<LevelImage>, FormatError>(ims),
{
    lemma_valid_fits(ims, key_count);
    lemma_auto_spec_u32_to_from_le_bytes();
    let body = body_bytes(ims, key_count);
    let f = file_bytes(ims, key_count);
    let lb = levels_bytes(ims);
    let h1 = le32(MAGIC as int);
    let h2 = le32(VERSION as int);
    let h3 = le32(ims.len() as int);
    let kc = le32(key_count);
    let sum = spec_u32_to_le_bytes(checksum(body));
    assert(body == h1 + h2 + h3 + lb + kc);
    assert(body.len() == 16 + lb.len());
    assert(f.len() == 20 + lb.len());
    assert(f.subrange(0, 4) =~= h1);
    assert(f.subrange(4, 8) =~= h2);
    assert(f.subrange(8, 12) =~= h3);
    assert(f.subrange(12, 12 + lb.len() as int) =~= lb);
    assert(f.subrange(12 + lb.len() as int, 12 + lb.len() as int + 4) =~= kc);
    assert(f.subrange(f.len() - 4, f.len() - 4 + 4) =~= sum);
    assert(f.subrange(0, f.len() - 4) =~= body);
    lemma_number_read_back(f, 0, MAGIC as int);
    lemma_number_read_back(f, 4, VERSION as int);
    lemma_number_read_back(f, 8, ims.len() as int);
    lemma_number_read_back(f, 12 + lb.len() as int, key_count);
    lemma_levels_read_back(f, ims, ims.len() as int);
    assert(ims.take(ims.len() as int) =~= ims);
}

/// Words that were read are what stands written.
pub proof fn lemma_words_written(b: Seq<u8>, pos: int, count: int)
    requires
        0 <= pos,
        0 <= count,
        pos + 8 * count <= b.len(),
    ensures
        words_bytes(get_words(b, pos, count)) == b.subrange(pos, pos + 8 * count),
{
    lemma_auto_spec_u64_to_from_le_bytes();
    let ws = get_words(b, pos, count);
    let wb = words_bytes(ws);
    assert forall|k: int| 0 <= k < 8 * count implies wb[k] == b[pos + k] by {
        let i = k / 8;
        let part = b.subrange(pos + 8 * i, pos + 8 * i + 8);
        assert(spec_u64_to_le_bytes(spec_u64_from_le_bytes(part)) == part);
        assert(part[k % 8] == b[pos + 8 * i + k % 8]);
    }
    assert(wb =~= b.subrange(pos, pos + 8 * count));
}

/// Links that were read are what stands written.
pub proof fn lemma_links_written(b: Seq<u8>, pos: int, count: int)
    requires
        0 <= pos,
        0 <= count,
        pos + 4 * count <= b.len(),
    ensures
        links_bytes(get_links(b, pos, count)) == b.subrange(pos, pos + 4 * count),
{
    lemma_auto_spec_u32_to_from_le_bytes();
    let ls = get_links(b, pos, count);
    let lb = links_bytes(ls);
    assert forall|k: int| 0 <= k < 4 * count implies lb[k] == b[pos + k] by {
        let i = k / 4;
        let part = b.subrange(pos + 4 * i, pos + 4 * i + 4);
        assert(spec_u32_to_le_bytes(spec_u32_from_le_bytes(part)) == part);
        assert(part[k % 4] == b[pos + 4 * i + k % 4]);
    }
    assert(lb =~= b.subrange(pos, pos + 4 * count));
}

/// A number that was read is what stands written.
pub proof fn lemma_number_written(b: Seq<u8>, pos: int)
    requires
        0 <= pos,
        pos + 4 <= b.len(),
    ensures
        le32(get32(b, pos) as int) == b.subrange(pos, pos + 4),
{
    lemma_auto_spec_u32_to_from_le_bytes();
    let part = b.subrange(pos, pos + 4);
    assert(spec_u32_to_le_bytes(spec_u32_from_le_bytes(part)) == part);
}

/// A level that was read is what stands written.
pub proof fn lemma_level_written(b: Seq<u8>, pos: int)
    requires
        0 <= pos,
        parse_level(b, pos) is Some,
    ensures
        pos <= parse_level(b, pos)->Some_0.1 <= b.len(),
        b.subrange(pos, parse_level(b, pos)->Some_0.1) == level_bytes(parse_level(b, pos)->Some_0.0),
{
    let im = parse_level(b, pos)->Some_0.0;
    let next = parse_level(b, pos)->Some_0.1;
    let n = get32(b, pos) as int;
    let bits = get32(b, pos + 4) as int;
    let wc = (bits + 63) / 64;
    let words_at = pos + 8;
    let blob_at = words_at + 16 * wc;
    let blob = get32(b, blob_at) as int;
    let heads_at = blob_at + 4;
    lemma_number_written(b, pos);
    lemma_number_written(b, pos + 4);
    lemma_words_written(b, words_at, wc);
    lemma_words_written(b, words_at + 8 * wc, wc);
    lemma_number_written(b, blob_at);
    lemma_links_written(b, heads_at + n, n);
    assert(im.heads.len() == n);
    assert(im.tails.len() == blob - 5 * n);
    assert(im.louds_len == bits);
    let s1 = b.subrange(pos, pos + 4);
    let s2 = b.subrange(pos + 4, pos + 8);
    let s3 = b.subrange(words_at, words_at + 8 * wc);
    let s4 = b.subrange(words_at + 8 * wc, words_at + 8 * wc + 8 * wc);
    let s5 = b.subrange(blob_at, blob_at + 4);
    let s6 = b.subrange(heads_at, heads_at + n);
    let s7 = b.subrange(heads_at + n, heads_at + n + 4 * n);
    let s8 = b.subrange(heads_at + 5 * n, heads_at + blob);
    assert(level_bytes(im) == s1 + s2 + s3 + s4 + s5 + s6 + s7 + s8);
    assert(s1 + s2 =~= b.subrange(pos, pos + 8));
    assert(s1 + s2 + s3 =~= b.subrange(pos, words_at + 8 * wc));
    assert(s1 + s2 + s3 + s4 =~= b.subrange(pos, blob_at));
    assert(s1 + s2 + s3 + s4 + s5 =~= b.subrange(pos, heads_at));
    assert(s1 + s2 + s3 + s4 + s5 + s6 =~= b.subrange(pos, heads_at + n));
    assert(s1 + s2 + s3 + s4 + s5 + s6 + s7 =~= b.subrange(pos, heads_at + 5 * n));
    assert(s1 + s2 + s3 + s4 + s5 + s6 + s7 + s8 =~= b.subrange(pos, heads_at + blob));
}

/// Levels that were read are what stands written.
pub proof fn lemma_levels_written(b: Seq<u8>, count: int)
    requires
        0 <= count,
        12 <= b.len(),
        parse_levels(b, count) is Some,
    ensures
        12 <= parse_levels(b, count)->Some_0.1 <= b.len(),
        b.subrange(12, parse_levels(b, count)->Some_0.1) == levels_bytes(
            parse_levels(b, count)->Some_0.0,
        ),
    decreases count,
{
    if count <= 0 {
        assert(b.subrange(12, 12) =~= Seq::<u8>::empty());
    } else {
        lemma_levels_written(b, count - 1);
        let before = parse_levels(b, count - 1)->Some_0.0;
        let pos = parse_levels(b, count - 1)->Some_0.1;
        lemma_level_written(b, pos);
        let im = parse_level(b, pos)->Some_0.0;
        let next = parse_level(b, pos)->Some_0.1;
        assert(before.push(im).drop_last() =~= before);
        assert(b.subrange(12, next) =~= b.subrange(12, pos) + b.subrange(pos, next));
    }
}

/// What can be read is what was stored: the bytes that hold the levels of
/// a dictionary are the stored form of those levels and nothing else.
pub proof fn lemma_decoded_is_stored(b: Seq<u8>)
    requires
        decode(b) is Ok,
    ensures
        ({
            let ims = decode(b)->Ok_0;
            &&& image_valid(ims, level_tree(levels_of(ims), ims.len() - 1).num_keys())
            &&& b == file_bytes(ims, level_tree(levels_of(ims), ims.len() - 1).num_keys())
        }),
{
    lemma_auto_spec_u32_to_from_le_bytes();
    let ims = decode(b)->Ok_0;
    let count = get32(b, 8) as int;
    let pos = parse_levels(b, count)->Some_0.1;
    let keys = get32(b, pos) as int;
    let n = b.len() as int;
    lemma_parse_count(b, count);
    lemma_levels_written(b, count);
    lemma_number_written(b, 0);
    lemma_number_written(b, 4);
    lemma_number_written(b, 8);
    lemma_number_written(b, pos);
    lemma_number_written(b, n - 4);
    let f = file_bytes(ims, keys);
    let body = body_bytes(ims, keys);
    let h1 = b.subrange(0, 4);
    let h2 = b.subrange(4, 8);
    let h3 = b.subrange(8, 12);
    let lb = b.subrange(12, pos);
    let kc = b.subrange(pos, pos + 4);
    assert(body == h1 + h2 + h3 + lb + kc);
    assert(h1 + h2 + h3 + lb + kc =~= b.subrange(0, n - 4));
    assert(b.subrange(0, n - 4) + b.subrange(n - 4, n - 4 + 4) =~= b);
}

/// What cannot be read is the stored form of no dictionary.
pub proof fn lemma_unreadable_is_not_stored(b: Seq<u8>, ims: Seq<LevelImage>, key_count: int)
    requires
        decode(b) is Err,
        image_valid(ims, key_count),
    ensures
        file_bytes(ims, key_count) != b,
{
    lemma_decode_file(ims, key_count);
}

/// A change to the stored checksum is noticed: whatever differs from a
/// stored dictionary in its last four bytes only cannot be read.
pub proof fn lemma_checksum_guards(stored: Seq<u8>, changed: Seq<u8>)
    requires
        decode(stored) is Ok,
        changed.len() == stored.len(),
        changed.subrange(0, stored.len() - 4) == stored.subrange(0, stored.len() - 4),
        changed != stored,
    ensures
        decode(changed) == Err::<Seq<LevelImage>, FormatError>(FormatError::CorruptFormat),
{
    lemma_auto_spec_u32_to_from_le_bytes();
    let n = stored.len() as int;
    let a = stored.subrange(n - 4, n - 4 + 4);
    let c = changed.subrange(n - 4, n - 4 + 4);
    assert forall|i: int| 0 <= i < n - 4 implies changed[i] == stored[i] by {
        assert(changed.subrange(0, n - 4)[i] == changed[i]);
        assert(stored.subrange(0, n - 4)[i] == stored[i]);
    }
    assert(changed.subrange(0, 4) =~= stored.subrange(0, 4));
    assert(changed.subrange(4, 8) =~= stored.subrange(4, 8));
    if a == c {
        assert forall|i: int| 0 <= i < n implies changed[i] == stored[i] by {
            if i >= n - 4 {
                assert(a[i - (n - 4)] == stored[i]);
                assert(c[i - (n - 4)] == changed[i]);
            }
        }
        assert(changed =~= stored);
    }
    assert(spec_u32_to_le_bytes(spec_u32_from_le_bytes(a)) == a);
    assert(spec_u32_to_le_bytes(spec_u32_from_le_bytes(c)) == c);
}

impl Trie {
    /// Saving cannot produce what loading refuses: the stored form of a
    /// dictionary holds its levels.
    pub proof fn lemma_saved_loads(&self)
        requires
            self.wf(),
            self.is_built(),
        ensures
            decode(file_bytes(self.images(), self@.len() as int)) == Ok::<
                Seq<LevelImage>,
                FormatError,
            >(self.images()),
    {
        self.lemma_wf();
        let top = self.levels().len() - 1;
        assert(crate::level::level_ok(self.levels(), top));
        self.top().lemma_num_keys();
        lemma_decode_file(self.images(), self@.len() as int);
    }

    /// A dictionary that is loaded from what another was saved as holds
    /// the same keys under the same identifiers.
    pub proof fn lemma_load_after_save(&self, loaded: &Trie)
        requires
            self.wf(),
            self.is_built(),
            loaded.wf(),
            loaded.is_built(),
            decode(file_bytes(self.images(), self@.len() as int)) == Ok::<
                Seq<LevelImage>,
                FormatError,
            >(loaded.images()),
        ensures
            loaded@ == self@,
    {
        self.lemma_saved_loads();
        self.lemma_wf();
        loaded.lemma_wf();
    }
}

} // verus!
