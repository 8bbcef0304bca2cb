//! OLE compound-file inspection: disambiguates the legacy office
//! formats that share the compound-file envelope by the names of the
//! streams and storages in its directory.
//!
//! The directory is enumerated by a bounded reader of the library's
//! own: the header's allocation tables are decoded, the directory
//! chain is walked with a step budget that rules out cycles, and every
//! index is checked against the buffer, so a malformed or truncated
//! compound file yields no verdict instead of a fault.

use crate::strutil::{lower_of, lowercase, spec_starts_with, str_eq, str_starts_with};
use vstd::prelude::*;

verus! {

/// The sector-end-of-chain marker of the compound-file format.
pub open spec fn spec_cfb_end_of_chain() -> int {
    0xFFFFFFFE
}

/// The free-slot marker of the compound-file format.
pub open spec fn spec_cfb_free() -> int {
    0xFFFFFFFF
}

/// Two to the power `k`.
pub open spec fn spec_pow2(k: int) -> int
    decreases k,
{
    if k <= 0 {
        1
    } else {
        2 * spec_pow2(k - 1)
    }
}

/// The 32-bit little-endian word at `at`.
fn read_u32(bytes: &[u8], at: usize) -> (r: u32)
    requires
        at + 4 <= bytes@.len(),
    ensures
        r as int == crate::matchers::spec_le32_at(bytes@, at as int),
{
    bytes[at] as u32 + (bytes[at + 1] as u32) * 0x100 + (bytes[at + 2] as u32) * 0x10000 + (
    bytes[at + 3] as u32) * 0x1000000
}

/// The 16-bit little-endian word at `at`.
fn read_u16(bytes: &[u8], at: usize) -> (r: u16)
    requires
        at + 2 <= bytes@.len(),
    ensures
        r as int == crate::matchers::spec_le16_at(bytes@, at as int),
{
    bytes[at] as u16 + (bytes[at + 1] as u16) * 0x100
}

/// Whether sector `id` lies entirely inside the buffer; sectors follow
/// the 512-byte header.
pub open spec fn spec_sector_in(bytes: Seq<u8>, sec_size: int, id: int) -> bool {
    0 <= id && 512 + (id + 1) * sec_size <= bytes.len()
}

fn sector_in(bytes: &[u8], sec_size: usize, id: u32) -> (r: bool)
    requires
        128 <= sec_size <= 32768,
    ensures
        r == spec_sector_in(bytes@, sec_size as int, id as int),
{
    assert((id as u64 + 1) * (sec_size as u64) <= 0x1_0000_0000u64 * 32768u64) by (nonlinear_arith)
        requires
            id as u64 <= 0xFFFF_FFFFu64,
            sec_size as u64 <= 32768u64,
    ;
    let need: u64 = 512u64 + (id as u64 + 1) * (sec_size as u64);
    need <= bytes.len() as u64
}

/// The sector ids of the master allocation table that fit in the
/// header, up to the first free slot.
pub open spec fn spec_difat_head(bytes: Seq<u8>, k: int) -> Seq<int>
    decreases 109 - k,
{
    if 0 <= k < 109 {
        let v = crate::matchers::spec_le32_at(bytes, 76 + 4 * k);
        if v == spec_cfb_free() {
            Seq::empty()
        } else {
            seq![v] + spec_difat_head(bytes, k + 1)
        }
    } else {
        Seq::empty()
    }
}

/// Reads the header-resident master allocation table.
fn read_difat(bytes: &[u8]) -> (r: Vec<u32>)
    requires
        bytes@.len() >= 512,
    ensures
        r@.map(|_i: int, v: u32| v as int) == spec_difat_head(bytes@, 0),
        r@.len() <= 109,
{
    let mut out: Vec<u32> = Vec::new();
    let mut k: usize = 0;
    while k < 109
        invariant
            k <= 109,
            bytes@.len() >= 512,
            out@.len() == k,
            spec_difat_head(bytes@, 0) =~= out@.map(|_i: int, v: u32| v as int)
                + spec_difat_head(bytes@, k as int),
        decreases 109 - k,
    {
        let ghost pre = out@;
        let v = read_u32(bytes, 76 + 4 * k);
        if v == 0xFFFF_FFFF {
            assert(spec_difat_head(bytes@, k as int) =~= Seq::<int>::empty());
            assert(out@.map(|_i: int, v2: u32| v2 as int) + Seq::<int>::empty() =~= out@.map(
                |_i: int, v2: u32| v2 as int,
            ));
            return out;
        }
        out.push(v);
        assert(out@.map(|_i: int, v2: u32| v2 as int) =~= pre.map(|_i: int, v2: u32| v2 as int)
            + seq![v as int]);
        k += 1;
    }
    assert(spec_difat_head(bytes@, 109) =~= Seq::<int>::empty());
    assert(out@.map(|_i: int, v2: u32| v2 as int) + Seq::<int>::empty() =~= out@.map(
        |_i: int, v2: u32| v2 as int,
    ));
    out
}

/// The 32-bit words of one sector.
pub open spec fn spec_sector_words(bytes: Seq<u8>, sec_size: int, id: int) -> Seq<int> {
    Seq::new(
        (sec_size / 4) as nat,
        |j: int| crate::matchers::spec_le32_at(bytes, 512 + id * sec_size + 4 * j),
    )
}

/// The allocation table: the words of the listed sectors, in order;
/// nothing when a listed sector lies outside the buffer.
pub open spec fn spec_fat_from(bytes: Seq<u8>, sec_size: int, ids: Seq<int>, k: int) -> Option<
    Seq<int>,
>
    decreases ids.len() - k,
{
    if 0 <= k < ids.len() {
        if !spec_sector_in(bytes, sec_size, ids[k]) {
            None
        } else {
            match spec_fat_from(bytes, sec_size, ids, k + 1) {
                Some(rest) => Some(spec_sector_words(bytes, sec_size, ids[k]) + rest),
                None => None,
            }
        }
    } else {
        Some(Seq::empty())
    }
}

/// The sector chain from `id` through the allocation table; nothing
/// when an id leaves the table or the walk exceeds its step budget
/// (a cycle).
pub open spec fn spec_chain(fat: Seq<int>, id: int, fuel: int) -> Option<Seq<int>>
    decreases fuel,
{
    if id == spec_cfb_end_of_chain() {
        Some(Seq::empty())
    } else if fuel <= 0 {
        None
    } else if !(0 <= id < fat.len()) {
        None
    } else {
        match spec_chain(fat, fat[id], fuel - 1) {
            Some(rest) => Some(seq![id] + rest),
            None => None,
        }
    }
}

/// One directory entry's name: the low bytes of its UTF-16 name field,
/// up to the terminator.
pub open spec fn spec_entry_name_from(bytes: Seq<u8>, at: int, k: int) -> Seq<char>
    decreases 32 - k,
{
    if 0 <= k < 32 {
        let b = bytes[at + 2 * k];
        if b == 0 {
            Seq::empty()
        } else {
            seq![b as char] + spec_entry_name_from(bytes, at, k + 1)
        }
    } else {
        Seq::empty()
    }
}

/// A directory entry is well formed when its type and colour bytes are
/// in range.
pub open spec fn spec_entry_ok(bytes: Seq<u8>, at: int) -> bool {
    bytes[at + 66] <= 5 && bytes[at + 67] <= 1
}

/// The names of the entries of one directory sector, in order.
pub open spec fn spec_sector_names(bytes: Seq<u8>, base: int, l: int, per: int) -> Option<
    Seq<Seq<char>>,
>
    decreases per - l,
{
    if 0 <= l < per {
        let at = base + 128 * l;
        if !spec_entry_ok(bytes, at) {
            None
        } else {
            match spec_sector_names(bytes, base, l + 1, per) {
                Some(rest) => Some(seq![spec_entry_name_from(bytes, at, 0)] + rest),
                None => None,
            }
        }
    } else {
        Some(Seq::empty())
    }
}

/// The names of all entries along the directory chain, in directory
/// order.
pub open spec fn spec_dir_names(bytes: Seq<u8>, sec_size: int, chain: Seq<int>, k: int) -> Option<
    Seq<Seq<char>>,
>
    decreases chain.len() - k,
{
    if 0 <= k < chain.len() {
        if !spec_sector_in(bytes, sec_size, chain[k]) {
            None
        } else {
            match (
                spec_sector_names(bytes, 512 + chain[k] * sec_size, 0, sec_size / 128),
                spec_dir_names(bytes, sec_size, chain, k + 1),
            ) {
                (Some(own), Some(rest)) => Some(own + rest),
                _ => None,
            }
        }
    } else {
        Some(Seq::empty())
    }
}

/// The stage after the header is decoded: build the allocation table,
/// walk the directory chain, and read the entry names.
pub open spec fn spec_names_from_fat(bytes: Seq<u8>, sec_size: int, difat: Seq<int>) -> Option<
    Seq<Seq<char>>,
> {
    match spec_fat_from(bytes, sec_size, difat, 0) {
        Some(fat) => match spec_chain(
            fat,
            crate::matchers::spec_le32_at(bytes, 48),
            fat.len() as int + 1,
        ) {
            Some(chain) => spec_dir_names(bytes, sec_size, chain, 0),
            None => None,
        },
        None => None,
    }
}

/// The compound file's directory entry names, in directory order.
/// Nothing when the buffer has no full header, an unsupported sector
/// shift, a master table that spills past the header, a sector outside
/// the buffer, a directory chain that leaves the table or cycles, or a
/// malformed entry.
pub open spec fn spec_ole_names(bytes: Seq<u8>) -> Option<Seq<Seq<char>>> {
    if bytes.len() < 512 {
        None
    } else {
        let shift = crate::matchers::spec_le16_at(bytes, 30);
        if !(7 <= shift <= 15) {
            None
        } else {
            let sec_size = spec_pow2(shift);
            let difat = spec_difat_head(bytes, 0);
            let first_difat = crate::matchers::spec_le32_at(bytes, 68);
            if difat.len() == 109 && first_difat != spec_cfb_end_of_chain() && first_difat
                != spec_cfb_free() {
                None
            } else {
                spec_names_from_fat(bytes, sec_size, difat)
            }
        }
    }
}

/// The values of the small powers of two.
proof fn lemma_pow2_vals()
    ensures
        spec_pow2(7) == 128,
        spec_pow2(8) == 256,
        spec_pow2(9) == 512,
        spec_pow2(10) == 1024,
        spec_pow2(11) == 2048,
        spec_pow2(12) == 4096,
        spec_pow2(13) == 8192,
        spec_pow2(14) == 16384,
        spec_pow2(15) == 32768,
{
    reveal_with_fuel(spec_pow2, 17);
}

/// Decodes one directory entry's name.
fn entry_name(bytes: &[u8], at: usize) -> (s: String)
    requires
        at + 64 <= bytes@.len(),
    ensures
        s@ == spec_entry_name_from(bytes@, at as int, 0),
{
    let blen = bytes.len();
    let mut s = String::new();
    let mut k: usize = 0;
    while k < 32
        invariant
            k <= 32,
            at + 64 <= blen,
            blen == bytes@.len(),
            spec_entry_name_from(bytes@, at as int, 0) =~= s@ + spec_entry_name_from(
                bytes@,
                at as int,
                k as int,
            ),
        decreases 32 - k,
    {
        let b = bytes[at + 2 * k];
        if b == 0 {
            assert(spec_entry_name_from(bytes@, at as int, k as int) =~= Seq::<char>::empty());
            assert(s@ + Seq::<char>::empty() =~= s@);
            return s;
        }
        let ghost pre = s@;
        crate::strutil::push_char(&mut s, b as char);
        proof {
            assert(spec_entry_name_from(bytes@, at as int, k as int) =~= seq![
                bytes@[at + 2 * k] as char,
            ] + spec_entry_name_from(bytes@, at as int, k + 1));
            assert(pre + spec_entry_name_from(bytes@, at as int, k as int) =~= s@
                + spec_entry_name_from(bytes@, at as int, k + 1));
        }
        k += 1;
    }
    assert(spec_entry_name_from(bytes@, at as int, 32) =~= Seq::<char>::empty());
    assert(s@ + Seq::<char>::empty() =~= s@);
    s
}

/// The names of the entries of one in-buffer directory sector.
fn sector_names(bytes: &[u8], sec_size: usize, id: u32) -> (r: Option<Vec<String>>)
    requires
        128 <= sec_size <= 32768,
        sec_size as int % 128 == 0,
        spec_sector_in(bytes@, sec_size as int, id as int),
    ensures
        match spec_sector_names(
            bytes@,
            512 + id as int * sec_size as int,
            0,
            sec_size as int / 128,
        ) {
            Some(ns) => r matches Some(v) && v@.map(|_i: int, s: String| s@) == ns,
            None => r is None,
        },
{
    let blen = bytes.len();
    proof {
        assert((id as int + 1) * (sec_size as int) == id as int * sec_size as int
            + sec_size as int) by (nonlinear_arith);
        assert(id as int * sec_size as int + sec_size as int + 512 <= blen as int);
    }
    let base: usize = 512 + (id as usize) * sec_size;
    let per = sec_size / 128;
    let ghost gbase = base as int;
    let ghost gper = per as int;
    let mut out: Vec<String> = Vec::new();
    let mut l: usize = 0;
    while l < per
        invariant
            l <= per,
            per == sec_size / 128,
            128 <= sec_size <= 32768,
            sec_size as int % 128 == 0,
            gbase == base as int,
            gbase == 512 + id as int * sec_size as int,
            gper == per as int,
            base + sec_size <= blen,
            blen == bytes@.len(),
            spec_sector_names(bytes@, gbase, 0, gper) == (match spec_sector_names(
                bytes@,
                gbase,
                l as int,
                gper,
            ) {
                Some(rest) => Some(out@.map(|_i: int, s: String| s@) + rest),
                None => None::<Seq<Seq<char>>>,
            }),
        decreases per - l,
    {
        assert(128 * (l + 1) <= 128 * gper) by (nonlinear_arith)
            requires
                l + 1 <= gper,
        ;
        assert(128 * gper == sec_size as int);
        let at = base + 128 * l;
        let tbyte = bytes[at + 66];
        let cbyte = bytes[at + 67];
        if tbyte > 5 || cbyte > 1 {
            assert(!spec_entry_ok(bytes@, gbase + 128 * l));
            assert(spec_sector_names(bytes@, gbase, l as int, gper) is None);
            return None;
        }
        let ghost pre = out@;
        let nm = entry_name(bytes, at);
        out.push(nm);
        proof {
            assert(out@.map(|_i: int, s: String| s@) =~= pre.map(|_i: int, s: String| s@) + seq![
                spec_entry_name_from(bytes@, gbase + 128 * l, 0),
            ]);
        }
        l += 1;
    }
    assert(spec_sector_names(bytes@, gbase, gper, gper) =~= Some(Seq::<Seq<char>>::empty()));
    assert(out@.map(|_i: int, s: String| s@) + Seq::<Seq<char>>::empty() =~= out@.map(
        |_i: int, s: String| s@,
    ));
    Some(out)
}

/// Moves every element of `src` onto the end of `dst`.
fn append_strings(dst: &mut Vec<String>, src: Vec<String>)
    ensures
        final(dst)@ == old(dst)@ + src@,
{
    let mut src = src;
    let n0 = src.len();
    let mut moved: usize = 0;
    let ghost src0 = src@;
    while src.len() > 0
        invariant
            src0.len() == n0,
            moved + src@.len() == src0.len(),
            src@ == src0.subrange(moved as int, src0.len() as int),
            dst@ == old(dst)@ + src0.subrange(0, moved as int),
        decreases src@.len(),
    {
        let x = src.remove(0);
        assert(src0.subrange(moved as int, src0.len() as int)[0] == src0[moved as int]);
        dst.push(x);
        proof {
            assert(src@ =~= src0.subrange(moved + 1, src0.len() as int));
            assert(old(dst)@ + src0.subrange(0, moved + 1) =~= (old(dst)@ + src0.subrange(
                0,
                moved as int,
            )).push(src0[moved as int]));
        }
        moved += 1;
    }
    assert(src0.subrange(0, src0.len() as int) =~= src0);
}

/// Enumerates the compound file's directory entry names with the
/// bounded reader.
#[verifier::rlimit(100)]
fn ole_entry_names(bytes: &[u8]) -> (r: Option<Vec<String>>)
    ensures
        (r is Some) == (spec_ole_names(bytes@) is Some),
        r matches Some(v) ==> Some(v@.map(|_i: int, s: String| s@)) == spec_ole_names(bytes@),
{
    let blen = bytes.len();
    if blen < 512 {
        return None;
    }
    let shift = read_u16(bytes, 30);
    if shift < 7 || shift > 15 {
        return None;
    }
    // the sector size, two to the declared shift
    let sec_size: usize = if shift == 7 {
        128
    } else if shift == 8 {
        256
    } else if shift == 9 {
        512
    } else if shift == 10 {
        1024
    } else if shift == 11 {
        2048
    } else if shift == 12 {
        4096
    } else if shift == 13 {
        8192
    } else if shift == 14 {
        16384
    } else {
        32768
    };
    proof {
        lemma_pow2_vals();
    }
    assert(sec_size as int == spec_pow2(shift as int));
    assert(128 <= sec_size <= 32768 && sec_size as int % 128 == 0 && sec_size as int % 4 == 0);
    // the master allocation table must fit in the header
    let difat = read_difat(bytes);
    let first_difat = read_u32(bytes, 68);
    if difat.len() == 109 && first_difat != 0xFFFF_FFFE && first_difat != 0xFFFF_FFFF {
        return None;
    }
    let ghost gdifat = difat@.map(|_i: int, v: u32| v as int);
    assert(spec_ole_names(bytes@) == spec_names_from_fat(bytes@, sec_size as int, gdifat));
    // the allocation table: the words of every listed sector
    let words_per = sec_size / 4;
    let mut fat: Vec<u32> = Vec::new();
    let mut k: usize = 0;
    while k < difat.len()
        invariant
            k <= difat@.len(),
            difat@.len() <= 109,
            blen == bytes@.len(),
            128 <= sec_size <= 32768,
            sec_size as int % 128 == 0,
            sec_size as int % 4 == 0,
            words_per == sec_size / 4,
            gdifat == difat@.map(|_i: int, v: u32| v as int),
            spec_ole_names(bytes@) == spec_names_from_fat(bytes@, sec_size as int, gdifat),
            fat@.len() == k * words_per,
            spec_fat_from(bytes@, sec_size as int, gdifat, 0) == (match spec_fat_from(
                bytes@,
                sec_size as int,
                gdifat,
                k as int,
            ) {
                Some(rest) => Some(fat@.map(|_i: int, v: u32| v as int) + rest),
                None => None::<Seq<int>>,
            }),
        decreases difat@.len() - k,
    {
        let id = difat[k];
        assert(gdifat[k as int] == id as int);
        if !sector_in(bytes, sec_size, id) {
            assert(spec_fat_from(bytes@, sec_size as int, gdifat, k as int) is None);
            return None;
        }
        proof {
            assert((id as int + 1) * (sec_size as int) == id as int * sec_size as int
                + sec_size as int) by (nonlinear_arith);
            assert(id as int * sec_size as int + sec_size as int + 512 <= blen as int);
            assert(4 * (sec_size as int / 4) == sec_size as int);
        }
        let base: usize = 512 + (id as usize) * sec_size;
        let ghost pre = fat@;
        let ghost words = spec_sector_words(bytes@, sec_size as int, id as int);
        let mut j: usize = 0;
        while j < words_per
            invariant
                j <= words_per,
                blen == bytes@.len(),
                128 <= sec_size <= 32768,
                words_per == sec_size / 4,
                4 * words_per == sec_size,
                id as int == gdifat[k as int],
                k < gdifat.len(),
                base == 512 + id as int * sec_size as int,
                base + sec_size <= blen,
                words == spec_sector_words(bytes@, sec_size as int, id as int),
                fat@ =~= pre + Seq::new(j as nat, |j2: int| (words[j2] as u32)),
            decreases words_per - j,
        {
            let w = read_u32(bytes, base + 4 * j);
            proof {
                assert(words[j as int] == crate::matchers::spec_le32_at(
                    bytes@,
                    512 + id as int * sec_size as int + 4 * j,
                ));
                assert(0 <= words[j as int] < 0x1_0000_0000);
            }
            fat.push(w);
            proof {
                assert(fat@ =~= pre + Seq::new((j + 1) as nat, |j2: int| (words[j2] as u32)));
            }
            j += 1;
        }
        proof {
            assert forall|j2: int|
                0 <= j2 < words.len() implies 0 <= #[trigger] words[j2] < 0x1_0000_0000 by {}
            assert(fat@.map(|_i: int, v: u32| v as int) =~= pre.map(|_i: int, v: u32| v as int)
                + words);
            assert((k as int + 1) * (words_per as int) == k as int * words_per as int
                + words_per as int) by (nonlinear_arith);
        }
        k += 1;
    }
    proof {
        assert(spec_fat_from(bytes@, sec_size as int, gdifat, gdifat.len() as int) == Some(
            Seq::<int>::empty(),
        ));
        assert(fat@.map(|_i: int, v: u32| v as int) + Seq::<int>::empty() =~= fat@.map(
            |_i: int, v: u32| v as int,
        ));
        assert(fat@.len() as int == gdifat.len() * (words_per as int));
        assert(gdifat.len() * (words_per as int) <= 109 * 8192) by (nonlinear_arith)
            requires
                0 <= gdifat.len() <= 109,
                0 <= words_per <= 8192,
        ;
    }
    let ghost gfat = fat@.map(|_i: int, v: u32| v as int);
    assert(spec_fat_from(bytes@, sec_size as int, gdifat, 0) == Some(gfat));
    // the directory chain, with a step budget that rules out cycles
    let first_dir = read_u32(bytes, 48);
    let fuel0: usize = fat.len() + 1;
    let mut chain: Vec<u32> = Vec::new();
    let mut id: u32 = first_dir;
    let mut fuel: usize = fuel0;
    while id != 0xFFFF_FFFE
        invariant
            blen == bytes@.len(),
            128 <= sec_size <= 32768,
            sec_size as int % 128 == 0,
            gfat == fat@.map(|_i: int, v: u32| v as int),
            gfat.len() == fat@.len(),
            spec_ole_names(bytes@) == spec_names_from_fat(bytes@, sec_size as int, gdifat),
            spec_fat_from(bytes@, sec_size as int, gdifat, 0) == Some(gfat),
            first_dir as int == crate::matchers::spec_le32_at(bytes@, 48),
            fuel <= fuel0,
            fuel0 == fat@.len() + 1,
            spec_chain(gfat, first_dir as int, fuel0 as int) == (match spec_chain(
                gfat,
                id as int,
                fuel as int,
            ) {
                Some(rest) => Some(chain@.map(|_i: int, v: u32| v as int) + rest),
                None => None::<Seq<int>>,
            }),
        decreases fuel,
    {
        if fuel == 0 {
            return None;
        }
        if id as usize >= fat.len() {
            return None;
        }
        let ghost prec = chain@;
        chain.push(id);
        let next = fat[id as usize];
        proof {
            assert(gfat[id as int] == next as int);
            assert(chain@.map(|_i: int, v: u32| v as int) =~= prec.map(|_i: int, v: u32| v as int)
                + seq![id as int]);
        }
        id = next;
        fuel = fuel - 1;
    }
    proof {
        assert(spec_chain(gfat, id as int, fuel as int) == Some(Seq::<int>::empty()));
        assert(chain@.map(|_i: int, v: u32| v as int) + Seq::<int>::empty() =~= chain@.map(
            |_i: int, v: u32| v as int,
        ));
    }
    let ghost gchain = chain@.map(|_i: int, v: u32| v as int);
    assert(spec_chain(gfat, first_dir as int, fuel0 as int) == Some(gchain));
    // the entry names along the chain
    let mut names: Vec<String> = Vec::new();
    let mut c: usize = 0;
    while c < chain.len()
        invariant
            c <= chain@.len(),
            blen == bytes@.len(),
            128 <= sec_size <= 32768,
            sec_size as int % 128 == 0,
            gchain == chain@.map(|_i: int, v: u32| v as int),
            spec_ole_names(bytes@) == spec_names_from_fat(bytes@, sec_size as int, gdifat),
            spec_fat_from(bytes@, sec_size as int, gdifat, 0) == Some(gfat),
            spec_chain(gfat, crate::matchers::spec_le32_at(bytes@, 48), gfat.len() as int + 1)
                == Some(gchain),
            spec_dir_names(bytes@, sec_size as int, gchain, 0) == (match spec_dir_names(
                bytes@,
                sec_size as int,
                gchain,
                c as int,
            ) {
                Some(rest) => Some(names@.map(|_i: int, s: String| s@) + rest),
                None => None::<Seq<Seq<char>>>,
            }),
        decreases chain@.len() - c,
    {
        let id2 = chain[c];
        assert(gchain[c as int] == id2 as int);
        if !sector_in(bytes, sec_size, id2) {
            assert(spec_dir_names(bytes@, sec_size as int, gchain, c as int) is None);
            return None;
        }
        match sector_names(bytes, sec_size, id2) {
            Some(sn) => {
                let ghost pren = names@;
                let ghost gsn = sn@.map(|_i: int, s: String| s@);
                append_strings(&mut names, sn);
                proof {
                    assert(names@.map(|_i: int, s: String| s@) =~= pren.map(
                        |_i: int, s: String| s@,
                    ) + gsn);
                }
            },
            None => {
                assert(spec_dir_names(bytes@, sec_size as int, gchain, c as int) is None);
                return None;
            },
        }
        c += 1;
    }
    proof {
        assert(spec_dir_names(bytes@, sec_size as int, gchain, gchain.len() as int) == Some(
            Seq::<Seq<char>>::empty(),
        ));
        assert(names@.map(|_i: int, s: String| s@) + Seq::<Seq<char>>::empty() =~= names@.map(
            |_i: int, s: String| s@,
        ));
    }
    Some(names)
}

/// The fixed name-to-mime table, consulted on the lower-cased entry
/// name.
pub open spec fn spec_ole_table(l: Seq<char>) -> Option<Seq<char>> {
    if l == "worddocument"@ {
        Some("application/msword"@)
    } else if l == "workbook"@ || l == "book"@ {
        Some("application/vnd.ms-excel"@)
    } else if l == "powerpoint document"@ {
        Some("application/vnd.ms-powerpoint"@)
    } else if l == "visiodocument"@ {
        Some("application/vnd.visio"@)
    } else if l == "encryptedpackage"@ {
        Some("application/x-tika-ooxml-protected"@)
    } else if l == "swdoccontentmgr"@ {
        Some("application/sldworks"@)
    } else if l == "starcalcdocument"@ {
        Some("application/vnd.stardivision.calc"@)
    } else if l == "starwriterdocument"@ {
        Some("application/vnd.stardivision.writer"@)
    } else if l == "stardrawdocument3"@ {
        Some("application/vnd.stardivision.draw"@)
    } else if l == "quill"@ {
        Some("application/x-mspublisher"@)
    } else if l == "\u{0005}hwpsummaryinformation"@ {
        Some("application/x-hwp-v5"@)
    } else if l == "nativecontent_main"@ {
        Some("application/x-quattro-pro"@)
    } else {
        None
    }
}

/// What one raw entry name yields: the table on its lower-cased form,
/// else the mail-message prefix.
pub open spec fn spec_ole_name(name: Seq<char>) -> Option<Seq<char>> {
    match spec_ole_table(lower_of(name)) {
        Some(m) => Some(m),
        None => if spec_starts_with(name, "__substg1.0_"@) {
            Some("application/vnd.ms-outlook"@)
        } else {
            None
        },
    }
}

/// The first entry name, in order, that the table or the prefix rule
/// resolves.
pub open spec fn spec_ole_scan(names: Seq<Seq<char>>, i: int) -> Option<Seq<char>>
    decreases names.len() - i,
{
    if 0 <= i < names.len() {
        match spec_ole_name(names[i]) {
            Some(m) => Some(m),
            None => spec_ole_scan(names, i + 1),
        }
    } else {
        None
    }
}

/// Whether some entry carries exactly this name.
pub open spec fn spec_has_name(names: Seq<Seq<char>>, x: Seq<char>) -> bool {
    exists|i: int| 0 <= i < names.len() && #[trigger] names[i] == x
}

/// The pairing rules consulted after the name scan.
pub open spec fn spec_ole_pairs(names: Seq<Seq<char>>) -> Option<Seq<char>> {
    if spec_has_name(names, "\u{0001}CompObj"@) && (spec_has_name(names, "Props9"@)
        || spec_has_name(names, "Props"@) || spec_has_name(names, "Props12"@)) {
        Some("application/vnd.ms-project"@)
    } else if spec_has_name(names, "\u{0001}CompObj"@) && (spec_has_name(names, "SPELLING"@)
        || spec_has_name(names, "CONTENTS"@)) {
        Some("application/vnd.ms-works"@)
    } else if spec_has_name(names, "PerfectOffice_MAIN"@) && spec_has_name(names, "SlideShow"@) {
        Some("application/x-corelpresentations"@)
    } else if spec_has_name(names, "PerfectOffice_MAIN"@) && spec_has_name(
        names,
        "PerfectOffice_OBJECTS"@,
    ) {
        Some("application/x-quattro-pro"@)
    } else {
        None
    }
}

/// What the OLE inspector concludes from a buffer: nothing without the
/// compound-file magic or an openable directory; else the name scan,
/// then the pairing rules.
pub open spec fn spec_ole_check(bytes: Seq<u8>) -> Option<Seq<char>> {
    if !(bytes.len() >= 8 && bytes[0] == 0xd0 && bytes[1] == 0xcf && bytes[2] == 0x11 && bytes[3]
        == 0xe0 && bytes[4] == 0xa1 && bytes[5] == 0xb1 && bytes[6] == 0x1a && bytes[7] == 0xe1) {
        None
    } else {
        match spec_ole_names(bytes) {
            Some(names) => match spec_ole_scan(names, 0) {
                Some(m) => Some(m),
                None => spec_ole_pairs(names),
            },
            None => None,
        }
    }
}

/// Applies the lower-cased table and the prefix rule to one name.
fn ole_name(name: &str) -> (r: Option<&'static str>)
    ensures
        match spec_ole_name(name@) {
            Some(m) => r matches Some(v) && v@ == m,
            None => r is None,
        },
{
    let l = lowercase(name);
    let ls = l.as_str();
    if str_eq(ls, "worddocument") {
        Some("application/msword")
    } else if str_eq(ls, "workbook") || str_eq(ls, "book") {
        Some("application/vnd.ms-excel")
    } else if str_eq(ls, "powerpoint document") {
        Some("application/vnd.ms-powerpoint")
    } else if str_eq(ls, "visiodocument") {
        Some("application/vnd.visio")
    } else if str_eq(ls, "encryptedpackage") {
        Some("application/x-tika-ooxml-protected")
    } else if str_eq(ls, "swdoccontentmgr") {
        Some("application/sldworks")
    } else if str_eq(ls, "starcalcdocument") {
        Some("application/vnd.stardivision.calc")
    } else if str_eq(ls, "starwriterdocument") {
        Some("application/vnd.stardivision.writer")
    } else if str_eq(ls, "stardrawdocument3") {
        Some("application/vnd.stardivision.draw")
    } else if str_eq(ls, "quill") {
        Some("application/x-mspublisher")
    } else if str_eq(ls, "\u{0005}hwpsummaryinformation") {
        Some("application/x-hwp-v5")
    } else if str_eq(ls, "nativecontent_main") {
        Some("application/x-quattro-pro")
    } else if str_starts_with(name, "__substg1.0_") {
        Some("application/vnd.ms-outlook")
    } else {
        None
    }
}

/// Whether the list holds exactly this name.
fn has_name(names: &Vec<String>, x: &str) -> (r: bool)
    ensures
        r == spec_has_name(names@.map(|_i: int, s: String| s@), x@),
{
    let ghost gnames = names@.map(|_i: int, s: String| s@);
    let mut i: usize = 0;
    while i < names.len()
        invariant
            i <= names@.len(),
            gnames == names@.map(|_i: int, s: String| s@),
            forall|j: int| 0 <= j < i ==> #[trigger] gnames[j] != x@,
        decreases names@.len() - i,
    {
        if str_eq(names[i].as_str(), x) {
            assert(gnames[i as int] == x@);
            return true;
        }
        i += 1;
    }
    false
}

/// The OLE compound-file inspector.
pub struct OleSpecialHandler;

impl OleSpecialHandler {
    /// Inspects a buffer that may be a compound file; yields the
    /// disambiguated mime, or nothing.
    pub fn check(&self, bytes: &[u8]) -> (r: Option<String>)
        ensures
            match spec_ole_check(bytes@) {
                Some(m) => r matches Some(s) && s@ == m,
                None => r is None,
            },
    {
        if bytes.len() < 8 || bytes[0] != 0xd0 || bytes[1] != 0xcf || bytes[2] != 0x11 || bytes[3]
            != 0xe0 || bytes[4] != 0xa1 || bytes[5] != 0xb1 || bytes[6] != 0x1a || bytes[7]
            != 0xe1 {
            return None;
        }
        let names = match ole_entry_names(bytes) {
            Some(names) => names,
            None => {
                return None;
            },
        };
        let ghost gnames = names@.map(|_i: int, s: String| s@);
        let mut i: usize = 0;
        while i < names.len()
            invariant
                i <= names@.len(),
                gnames == names@.map(|_i: int, s: String| s@),
                spec_ole_scan(gnames, 0) == spec_ole_scan(gnames, i as int),
                spec_ole_scan(gnames, 0) is Some ==> spec_ole_check(bytes@) == spec_ole_scan(
                    gnames,
                    0,
                ),
            decreases names@.len() - i,
        {
            proof {
                assert(gnames[i as int] == names@[i as int]@);
            }
            match ole_name(names[i].as_str()) {
                Some(m) => {
                    return Some(m.to_owned());
                },
                None => {},
            }
            i += 1;
        }
        if has_name(&names, "\u{0001}CompObj") {
            if has_name(&names, "Props9") || has_name(&names, "Props") || has_name(
                &names,
                "Props12",
            ) {
                return Some("application/vnd.ms-project".to_owned());
            }
            if has_name(&names, "SPELLING") || has_name(&names, "CONTENTS") {
                return Some("application/vnd.ms-works".to_owned());
            }
        }
        if has_name(&names, "PerfectOffice_MAIN") {
            if has_name(&names, "SlideShow") {
                return Some("application/x-corelpresentations".to_owned());
            }
            if has_name(&names, "PerfectOffice_OBJECTS") {
                return Some("application/x-quattro-pro".to_owned());
            }
        }
        None
    }
}

} // verus!
