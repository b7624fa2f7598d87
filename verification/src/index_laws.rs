//! Where the data blocks of a file are.

use crate::decode::{
    face_data_headers, face_offset, faces_are_consecutive, large_positions, num_large,
    tiles_are_consecutive,
};
use crate::element_laws::{number_at, numbers_are_little_endian, signed};
use crate::error::ErrorView;
use crate::file_info::InfoView;
use crate::format::FaceDataHeader;
use crate::image::{dir_of, entry_of, level_of};
use crate::laws::exact_reads;
use crate::opening_laws::signed_numbers;
use crate::stream::Stream;
use crate::types::Res;
use crate::zlib::inflated;
use vstd::arithmetic::power2::pow2;
use vstd::prelude::*;

verus! {

/// How many of the first `n` headers in a table of block headers have all bits
/// of the size set, which marks a block whose size is stored elsewhere.
pub open spec fn marked_large(table: Seq<u8>, n: nat) -> nat
    decreases n,
{
    if n == 0 {
        0
    } else {
        marked_large(table, (n - 1) as nat) + if number_at(table, 4 * (n - 1), 4) as int
            % 0x4000_0000 == 0x3fff_ffff {
            1nat
        } else {
            0nat
        }
    }
}

proof fn lemma_marked_large(table: Seq<u8>, n: nat)
    requires
        n <= table.len() / 4,
    ensures
        num_large(face_data_headers(table), n) == marked_large(table, n),
    decreases n,
{
    if n > 0 {
        lemma_marked_large(table, (n - 1) as nat);
        numbers_are_little_endian(table, 4 * (n - 1));
    }
}

/// The index of a level is a zip block at the start of the level, with a header
/// of four bytes for every face.  The blocks of the faces come behind it and
/// behind the table of large sizes, one after the other in the order of the
/// headers; a face is as long as its header says, or, if its size is marked
/// large, as the next entry of that table does.
pub proof fn level_index_is_in_order(f: Stream, info: InfoView, levelid: int, i: int)
    requires
        exact_reads(f),
        level_of(f, info, levelid) is Ok,
        0 <= i < info.levels[levelid].nfaces,
    ensures
        ({
            let level = level_of(f, info, levelid)->Ok_0;
            let li = info.levels[levelid];
            let start = info.level_pos[levelid];
            let stored = f(start, li.levelheadersize as usize);
            let index = inflated(stored->0);
            let nlarge = marked_large(index->Ok_0, li.nfaces as nat);
            let large = f((start + li.levelheadersize) as u64, (8 * nlarge) as usize);
            let header = number_at(index->Ok_0, 4 * i, 4) as int;
            let size = if header % 0x4000_0000 == 0x3fff_ffff {
                number_at(large->0, 8 * marked_large(index->Ok_0, i as nat) as int, 8) as int
            } else {
                header % 0x4000_0000
            };
            &&& stored is Some
            &&& index is Ok
            &&& index->Ok_0.len() == 4 * li.nfaces
            &&& level.fdh.len() == li.nfaces
            &&& level.offsets.len() == li.nfaces
            &&& level.fdh[i].data == header
            &&& nlarge > 0 ==> large is Some
            &&& level.offsets[0] == start + li.levelheadersize + 8 * nlarge
            &&& i + 1 < li.nfaces ==> level.offsets[i + 1] == level.offsets[i] + size
        }),
{
    reveal(level_of);
    let li = info.levels[levelid];
    let start = info.level_pos[levelid];
    let index = inflated(f(start, li.levelheadersize as usize)->0)->Ok_0;
    let fdh = face_data_headers(index);
    let base = start + li.levelheadersize;
    assert(fdh.len() == li.nfaces);
    lemma_marked_large(index, li.nfaces as nat);
    lemma_marked_large(index, i as nat);
    numbers_are_little_endian(index, 4 * i);
    let table = crate::image::large_table_of(f, fdh, base as u64)->Ok_0;
    numbers_are_little_endian(table, 8 * num_large(fdh, i as nat) as int);
    crate::decode::lemma_first_offset(fdh, base, table);
    if i + 1 < li.nfaces {
        faces_are_consecutive(fdh, base, table, i);
        if fdh[i].spec_is_large_face() {
            crate::decode::lemma_num_large(fdh, (i + 1) as nat, fdh.len());
        }
    }
}

/// A face of a level is found exactly if the level can be read and has that
/// many faces.
pub proof fn entry_is_in_the_index(f: Stream, info: InfoView, levelid: int, facepos: int)
    requires
        0 <= facepos,
    ensures
        entry_of(f, info, levelid, facepos) is Ok <==> level_of(f, info, levelid) is Ok && facepos
            < level_of(f, info, levelid)->Ok_0.fdh.len(),
        level_of(f, info, levelid) is Err ==> entry_of(f, info, levelid, facepos) == Err::<
            (FaceDataHeader, u64),
            ErrorView,
        >(level_of(f, info, levelid)->Err_0),
        entry_of(f, info, levelid, facepos) is Ok ==> {
            let level = level_of(f, info, levelid)->Ok_0;
            entry_of(f, info, levelid, facepos)->Ok_0 == (
                level.fdh[facepos],
                level.offsets[facepos],
            )
        },
{
}

/// A tiled block starts with the logarithms of the tile resolution and the size
/// of its directory, which is a zip block at byte 6 with a header of four bytes
/// for every tile.  The tiles come behind it, one after the other; none is
/// marked large and none is tiled again.
pub proof fn tile_directory_is_in_order(f: Stream, pos: u64, res: Res, t: int)
    requires
        exact_reads(f),
        dir_of(f, pos, res) is Ok,
        0 <= t < dir_of(f, pos, res)->Ok_0.fdh.len(),
    ensures
        ({
            let dir = dir_of(f, pos, res)->Ok_0;
            let head = f(pos, 6);
            let size = number_at(head->0, 2, 4);
            let stored = f((pos + 6) as u64, size as usize);
            let table = inflated(stored->0);
            let header = number_at(table->Ok_0, 4 * t, 4) as int;
            &&& head is Some
            &&& stored is Some
            &&& table is Ok
            &&& dir.tile_res.ulog2 == signed(number_at(head->0, 0, 1), 8)
            &&& dir.tile_res.vlog2 == signed(number_at(head->0, 1, 1), 8)
            &&& 0 <= dir.tile_res.ulog2 <= res.ulog2
            &&& 0 <= dir.tile_res.vlog2 <= res.vlog2
            &&& dir.fdh.len() == pow2((res.ulog2 - dir.tile_res.ulog2) as nat) * pow2(
                (res.vlog2 - dir.tile_res.vlog2) as nat,
            )
            &&& table->Ok_0.len() == 4 * dir.fdh.len()
            &&& dir.offsets.len() == dir.fdh.len()
            &&& dir.fdh[t].data == header
            &&& header % 0x4000_0000 < 0x3fff_ffff
            &&& header / 0x4000_0000 < 3
            &&& dir.offsets[0] == pos + 6 + size
            &&& t + 1 < dir.fdh.len() ==> dir.offsets[t + 1] == dir.offsets[t] + header
                % 0x4000_0000
        }),
{
    reveal(dir_of);
    let dir = dir_of(f, pos, res)->Ok_0;
    let head = f(pos, 6)->0;
    numbers_are_little_endian(head, 2);
    let size = number_at(head, 2, 4);
    let table = inflated(f((pos + 6) as u64, size as usize)->0)->Ok_0;
    reveal_with_fuel(number_at, 2);
    signed_numbers(head[0] as int);
    signed_numbers(head[1] as int);
    numbers_are_little_endian(table, 4 * t);
    let base = pos + 6 + size;
    crate::decode::lemma_tile_is_sound(table, dir.tile_res, res, base as int, t);
    crate::decode::lemma_tile_is_sound(table, dir.tile_res, res, base as int, 0);
    if t + 1 < dir.fdh.len() {
        tiles_are_consecutive(table, dir.tile_res, res, base as int, t);
    }
}

/// Sum of the sizes of the first `n` blocks of a level; sizes that are marked
/// large are taken from `large`, one after the other.
pub open spec fn blocks_before(index: Seq<u8>, large: Seq<u8>, n: nat) -> nat
    decreases n,
{
    if n == 0 {
        0
    } else {
        let header = number_at(index, 4 * (n - 1), 4) as int;
        blocks_before(index, large, (n - 1) as nat) + if header % 0x4000_0000 == 0x3fff_ffff {
            number_at(large, 8 * marked_large(index, (n - 1) as nat) as int, 8)
        } else {
            (header % 0x4000_0000) as nat
        }
    }
}

proof fn lemma_blocks_before(index: Seq<u8>, base: int, large: Seq<u8>, n: nat)
    requires
        n <= index.len() / 4,
    ensures
        face_offset(face_data_headers(index), base, large, n) == base + 8 * num_large(
            face_data_headers(index),
            face_data_headers(index).len(),
        ) + blocks_before(index, large, n),
    decreases n,
{
    if n > 0 {
        lemma_blocks_before(index, base, large, (n - 1) as nat);
        lemma_marked_large(index, (n - 1) as nat);
        numbers_are_little_endian(index, 4 * (n - 1));
        numbers_are_little_endian(
            large,
            8 * num_large(face_data_headers(index), (n - 1) as nat) as int,
        );
    }
}

/// The index of a level can be read exactly if its zip block inflates to four
/// bytes for every face, the table of large sizes can be read if there is one,
/// and no block starts past the largest file offset.
pub proof fn readable_level_index(f: Stream, info: InfoView, levelid: int)
    requires
        exact_reads(f),
    ensures
        ({
            let li = info.levels[levelid];
            let start = info.level_pos[levelid];
            let stored = f(start, li.levelheadersize as usize);
            let index = inflated(stored->0);
            let base = start + li.levelheadersize;
            let nlarge = marked_large(index->Ok_0, li.nfaces as nat);
            let large = f(base as u64, (8 * nlarge) as usize);
            level_of(f, info, levelid) is Ok <==> {
                &&& stored is Some
                &&& index is Ok
                &&& index->Ok_0.len() == 4 * li.nfaces
                &&& base <= u64::MAX
                &&& nlarge > 0 ==> 8 * nlarge <= usize::MAX && large is Some
                &&& li.nfaces > 0 ==> base + 8 * nlarge + blocks_before(
                    index->Ok_0,
                    large->0,
                    (li.nfaces - 1) as nat,
                ) <= u64::MAX
            }
        }),
{
    reveal(level_of);
    let li = info.levels[levelid];
    let start = info.level_pos[levelid];
    let stored = f(start, li.levelheadersize as usize);
    let index = inflated(stored->0);
    let base = start + li.levelheadersize;
    if stored is Some && index is Ok && index->Ok_0.len() == 4 * li.nfaces {
        let table = index->Ok_0;
        let fdh = face_data_headers(table);
        assert(fdh.len() == li.nfaces);
        lemma_marked_large(table, li.nfaces as nat);
        let nlarge = marked_large(table, li.nfaces as nat);
        let large = f(base as u64, (8 * nlarge) as usize);
        if li.nfaces > 0 {
            let n = (li.nfaces - 1) as nat;
            if nlarge == 0 {
                lemma_blocks_before(table, base, Seq::empty(), n);
                lemma_no_large(table, Seq::empty(), large->0, n, li.nfaces as nat);
            } else if large is Some {
                lemma_blocks_before(table, base, large->0, n);
            }
        }
    }
}

/// Without large sizes the table of them does not matter.
proof fn lemma_no_large(index: Seq<u8>, a: Seq<u8>, b: Seq<u8>, n: nat, total: nat)
    requires
        n <= total,
        marked_large(index, total) == 0,
    ensures
        blocks_before(index, a, n) == blocks_before(index, b, n),
        marked_large(index, n) == 0,
    decreases total, n,
{
    if n < total {
        lemma_no_large(index, a, b, n, (total - 1) as nat);
    } else if n > 0 {
        lemma_no_large(index, a, b, (n - 1) as nat, (total - 1) as nat);
    }
}

/// A tile directory can be read exactly if the tile resolution divides that of
/// the face into tiles that can be counted, the directory inflates to four
/// bytes for every tile, no tile is marked large or tiled again, and no tile
/// starts past the largest file offset.
pub proof fn readable_tile_directory(f: Stream, pos: u64, res: Res)
    requires
        exact_reads(f),
    ensures
        ({
            let head = f(pos, 6);
            let tu = signed(number_at(head->0, 0, 1), 8);
            let tv = signed(number_at(head->0, 1, 1), 8);
            let size = number_at(head->0, 2, 4);
            let base = pos + 6 + size;
            let n = pow2((res.ulog2 - tu) as nat) * pow2((res.vlog2 - tv) as nat);
            let stored = f((pos + 6) as u64, size as usize);
            let table = inflated(stored->0);
            dir_of(f, pos, res) is Ok <==> {
                &&& head is Some
                &&& 0 <= tu <= res.ulog2
                &&& 0 <= tv <= res.vlog2
                &&& (res.ulog2 - tu) + (res.vlog2 - tv) < usize::BITS
                &&& 4 * n <= u64::MAX
                &&& base <= u64::MAX
                &&& stored is Some
                &&& table is Ok
                &&& table->Ok_0.len() == 4 * n
                &&& forall|t: int|
                    0 <= t < n ==> {
                        let header = #[trigger] number_at(table->Ok_0, 4 * t, 4) as int;
                        &&& header % 0x4000_0000 < 0x3fff_ffff
                        &&& header / 0x4000_0000 < 3
                        &&& base + blocks_before(table->Ok_0, Seq::empty(), t as nat) <= u64::MAX
                    }
            }
        }),
{
    reveal(dir_of);
    if let Some(head) = f(pos, 6) {
        reveal_with_fuel(number_at, 2);
        signed_numbers(head[0] as int);
        signed_numbers(head[1] as int);
        numbers_are_little_endian(head, 2);
        let tu = signed(number_at(head, 0, 1), 8);
        let tv = signed(number_at(head, 1, 1), 8);
        let size = number_at(head, 2, 4);
        let base = pos + 6 + size;
        let tile_res = Res { ulog2: tu as i8, vlog2: tv as i8 };
        if 0 <= tu <= res.ulog2 && 0 <= tv <= res.vlog2 {
            assert(crate::decode::tile_header(head, res) == Ok::<(Res, usize), ErrorView>(
                (tile_res, size as usize),
            ));
            let n = res.spec_ntiles(tile_res);
            let stored = f((pos + 6) as u64, size as usize);
            let table = inflated(stored->0);
            if stored is Some && table is Ok && table->Ok_0.len() == 4 * n {
                lemma_faults(table->Ok_0, base, n);
            }
        }
    }
}

/// Tiles without a fault.
proof fn lemma_faults(table: Seq<u8>, base: int, n: nat)
    requires
        n <= table.len() / 4,
        base >= 0,
    ensures
        crate::decode::first_tile_fault(face_data_headers(table), base, n) is None
            <==> forall|t: int|
            0 <= t < n ==> {
                let header = #[trigger] number_at(table, 4 * t, 4) as int;
                &&& header % 0x4000_0000 < 0x3fff_ffff
                &&& header / 0x4000_0000 < 3
                &&& base + blocks_before(table, Seq::empty(), t as nat) <= u64::MAX
            },
        crate::decode::first_tile_fault(face_data_headers(table), base, n) is None
            ==> crate::decode::tile_offset(face_data_headers(table), base, n) == base
            + blocks_before(table, Seq::empty(), n),
    decreases n,
{
    let fdh = face_data_headers(table);
    if n > 0 {
        lemma_faults(table, base, (n - 1) as nat);
        let t = n - 1;
        numbers_are_little_endian(table, 4 * t);
        let header = number_at(table, 4 * t, 4) as int;
        let before = crate::decode::first_tile_fault(fdh, base, (n - 1) as nat);
        let ok = |t: int|
            {
                let header = number_at(table, 4 * t, 4) as int;
                &&& header % 0x4000_0000 < 0x3fff_ffff
                &&& header / 0x4000_0000 < 3
                &&& base + blocks_before(table, Seq::empty(), t as nat) <= u64::MAX
            };
        if before is None {
            assert(crate::decode::tile_fault(fdh, base, t) is None <==> ok(t));
            if ok(t) {
                assert forall|j: int| 0 <= j < n implies {
                    let header = #[trigger] number_at(table, 4 * j, 4) as int;
                    &&& header % 0x4000_0000 < 0x3fff_ffff
                    &&& header / 0x4000_0000 < 3
                    &&& base + blocks_before(table, Seq::empty(), j as nat) <= u64::MAX
                } by {
                    if j < t {
                        assert(ok(j));
                    }
                }
            }
        }
    }
}

/// The positions of the large faces are those of the headers with all bits of
/// the size set, each once and in increasing order.
pub proof fn large_faces_are_listed_in_order(fdh: Seq<FaceDataHeader>, n: nat, p: usize)
    requires
        n <= usize::MAX,
    ensures
        large_positions(fdh, n).contains(p) <==> p < n && fdh[p as int].data % 0x4000_0000
            == 0x3fff_ffff,
        forall|i: int, j: int|
            0 <= i < j < large_positions(fdh, n).len() ==> large_positions(fdh, n)[i]
                < large_positions(fdh, n)[j],
        forall|i: int|
            0 <= i < large_positions(fdh, n).len() ==> #[trigger] large_positions(fdh, n)[i] < n,
    decreases n,
{
    if n > 0 {
        let before = large_positions(fdh, (n - 1) as nat);
        let now = large_positions(fdh, n);
        large_faces_are_listed_in_order(fdh, (n - 1) as nat, p);
        if fdh[n - 1].spec_is_large_face() {
            assert(now == before.push((n - 1) as usize));
            assert(now.contains(p) <==> before.contains(p) || p == n - 1) by {
                if before.contains(p) {
                    let i = choose|i: int| 0 <= i < before.len() && before[i] == p;
                    assert(now[i] == p);
                }
                if p == n - 1 {
                    assert(now[before.len() as int] == p);
                }
            }
        }
    }
}

} // verus!
