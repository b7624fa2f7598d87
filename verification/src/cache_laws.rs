//! What the caches keep.

use crate::cache::{
    after_lookup, distinct_keys, find_value, inserted, lemma_total_front, lemma_trimmed,
    total_size, trimmed, CacheKey, CacheValue, Entries, PixelCache,
};
use crate::file_info::InfoView;
use crate::image::{dir_of, entry_of};
use crate::reader::{face_dir, keys_after_use, layout_dir, texel_dir};
use crate::recency::{holds_key, KeyCode};
use crate::shared::{handed_over, looked_up, SharedState};
use crate::stream::Stream;
use crate::types::Res;
use vstd::prelude::*;

verus! {

/// An entry is charged 96 bytes and what it holds: the bytes of its pixels, or
/// twelve bytes for every tile of a directory.  Entries together are charged
/// the sum.
pub proof fn charges_add_up(value: CacheValue, key: KeyCode, rest: Entries)
    ensures
        value.spec_size() == 96 + match value {
            CacheValue::Pixels(p) => p@.len() as int,
            CacheValue::Dir(d) => 12 * d@.fdh.len() as int,
        },
        total_size(Entries::empty()) == 0,
        total_size(seq![(key, value)] + rest) == value.spec_size() + total_size(rest),
{
    lemma_total_front((key, value), rest);
}

/// Making room drops the entries that have gone unused for longest, and no more
/// of them than it must: those that stay are the ones used last, they fit, and
/// with one more they would not.
pub proof fn no_more_is_dropped_than_must_be(entries: Entries, room: nat)
    ensures
        ({
            let kept = trimmed(entries, room);
            &&& kept.len() <= entries.len()
            &&& kept == entries.take(kept.len() as int)
            &&& total_size(kept) <= room
            &&& kept.len() < entries.len() ==> total_size(
                entries.take(kept.len() as int + 1),
            ) > room
        }),
    decreases entries.len(),
{
    lemma_trimmed(entries, room);
    if entries.len() > 0 && total_size(entries) > room {
        let rest = entries.drop_last();
        no_more_is_dropped_than_must_be(rest, room);
        let n = trimmed(rest, room).len() as int;
        if n < rest.len() {
            assert(rest.take(n + 1) =~= entries.take(n + 1));
        } else {
            assert(entries.take(n + 1) =~= entries);
        }
    }
}

/// A lookup finds the entry with the key, makes it the one used last, and keeps
/// the others in their order; without one it changes nothing.
pub proof fn lookup_moves_to_the_front(entries: Entries, key: KeyCode, i: int)
    requires
        distinct_keys(entries),
    ensures
        0 <= i < entries.len() && entries[i].0 == key ==> {
            &&& find_value(entries, key) == Some(entries[i].1)
            &&& after_lookup(entries, key) == seq![entries[i]] + entries.take(i) + entries.skip(
                i + 1,
            )
        },
        (forall|j: int| 0 <= j < entries.len() ==> (#[trigger] entries[j]).0 != key) ==> {
            &&& find_value(entries, key) is None
            &&& after_lookup(entries, key) == entries
        },
{
    if 0 <= i < entries.len() && entries[i].0 == key {
        assert(holds_key(entries, i, key));
        let j = choose|j: int| #[trigger] holds_key(entries, j, key);
        assert(entries[j].0 == entries[i].0);
        assert(j == i);
        assert(seq![entries[i]] + entries.remove(i) =~= seq![entries[i]] + entries.take(i)
            + entries.skip(i + 1));
    }
    if forall|j: int| 0 <= j < entries.len() ==> (#[trigger] entries[j]).0 != key {
        assert forall|j: int| !#[trigger] holds_key(entries, j, key) by {}
    }
}

/// A value that is new and not larger than the budget is kept as the one used
/// last, in front of as many of the others, used last first, as the budget
/// allows; those that leave are counted.  A larger one is counted and handed
/// back, and nothing else changes.  Of a key that is there already, the value
/// that is there is handed back.
pub proof fn new_values_are_kept(
    before: PixelCache,
    key: CacheKey,
    value: CacheValue,
    after: PixelCache,
    r: CacheValue,
)
    requires
        before.wf(),
        inserted(before, key, value, after, r),
    ensures
        ({
            let code = key.spec_code();
            let found = exists|i: int| #[trigger] holds_key(before.entries(), i, code);
            let size = value.spec_size();
            let n = after.entries().len() - 1;
            &&& after.spec_budget() == before.spec_budget()
            &&& found ==> {
                &&& find_value(before.entries(), code) == Some(r)
                &&& after.entries().len() == before.entries().len()
                &&& after.spec_evictions() == before.spec_evictions()
                &&& after.spec_oversized() == before.spec_oversized()
            }
            &&& !found ==> r == value
            &&& !found && size > before.spec_budget() ==> {
                &&& after.entries() == before.entries()
                &&& after.spec_evictions() == before.spec_evictions()
                &&& after.spec_oversized() as int == (before.spec_oversized() + 1)
                    % 0x1_0000_0000_0000_0000
            }
            &&& !found && size <= before.spec_budget() ==> {
                &&& 0 <= n <= before.entries().len()
                &&& after.entries() == seq![(code, value)] + before.entries().take(n)
                &&& n < before.entries().len() ==> size + total_size(before.entries().take(n + 1))
                    > before.spec_budget()
                &&& after.spec_oversized() == before.spec_oversized()
                &&& after.spec_evictions() as int == (before.spec_evictions()
                    + before.entries().len() - n) % 0x1_0000_0000_0000_0000
            }
        }),
{
    let code = key.spec_code();
    let size = value.spec_size();
    if exists|i: int| #[trigger] holds_key(before.entries(), i, code) {
        let i = choose|i: int| #[trigger] holds_key(before.entries(), i, code);
        assert(before.entries().remove(i).len() == before.entries().len() - 1);
    } else if size <= before.spec_budget() {
        no_more_is_dropped_than_must_be(
            before.entries(),
            (before.spec_budget() - size) as nat,
        );
    }
}

/// A lookup counts as a hit if it finds something and as a miss if not; handing
/// a value over counts as neither.  Counters wrap around.
pub proof fn lookups_are_counted(
    before: SharedState,
    key: CacheKey,
    after: SharedState,
    r: Option<CacheValue>,
    value: CacheValue,
    stored: SharedState,
    kept: CacheValue,
)
    requires
        looked_up(before, key, after, r),
        handed_over(after, key, value, stored, kept),
    ensures
        after.spec_hits() as int == (before.spec_hits() + if r is Some {
            1int
        } else {
            0int
        }) % 0x1_0000_0000_0000_0000,
        after.spec_misses() as int == (before.spec_misses() + if r is Some {
            0int
        } else {
            1int
        }) % 0x1_0000_0000_0000_0000,
        r == find_value(before.cache().entries(), key.spec_code()),
        stored.spec_hits() == after.spec_hits(),
        stored.spec_misses() == after.spec_misses(),
        stored.spec_levels() == before.spec_levels(),
        stored.spec_metadata() == before.spec_metadata(),
{
}

/// The counters that are reported are those of the cache.
pub proof fn reported_counters(state: SharedState)
    requires
        state.cache().wf(),
    ensures
        ({
            let s = state.spec_stats();
            &&& s.hits == state.spec_hits()
            &&& s.misses == state.spec_misses()
            &&& s.evictions == state.cache().spec_evictions()
            &&& s.oversized == state.cache().spec_oversized()
            &&& s.entries as nat == state.cache().entries().len() as usize
            &&& s.bytes_resident == total_size(state.cache().entries()) as usize
            &&& s.bytes_budget == state.cache().spec_budget() as usize
        }),
{
}

/// Using a tile directory makes it the first of those that are kept; the others
/// follow in their order, and the last ones leave where there is no room.
pub proof fn used_directory_comes_first(
    keys: Seq<(u64, Res)>,
    key: (u64, Res),
    cap: nat,
    i: int,
)
    requires
        cap >= 1,
        keys.len() <= cap,
        forall|a: int, b: int| 0 <= a < b < keys.len() ==> keys[a] != keys[b],
    ensures
        ({
            let after = keys_after_use(keys, key, cap);
            &&& after.len() <= cap
            &&& after[0] == key
            &&& 0 <= i < keys.len() && keys[i] == key ==> after == seq![key] + keys.take(i)
                + keys.skip(i + 1)
            &&& !keys.contains(key) && keys.len() < cap ==> after == seq![key] + keys
            &&& !keys.contains(key) && keys.len() == cap ==> after == seq![key]
                + keys.drop_last()
        }),
{
    let after = keys_after_use(keys, key, cap);
    if keys.contains(key) {
        keys.index_of_first_ensures(key);
        let j = keys.index_of_first(key)->0;
        if 0 <= i < keys.len() && keys[i] == key {
            assert(i == j);
            assert(seq![key] + keys.remove(i) =~= seq![key] + keys.take(i) + keys.skip(i + 1));
        }
    } else if keys.len() == cap {
        assert((seq![key] + keys).take(cap as int) =~= seq![key] + keys.drop_last());
    }
}

/// Without options a cache holds 64 MiB, and a plain reader keeps 16 tile
/// directories.
pub proof fn default_sizes()
    ensures
        crate::cache::DEFAULT_CACHE_BUDGET == 64 * 1024 * 1024,
        crate::reader::DEFAULT_TILE_CACHE_CAPACITY == 16,
{
    assert(64usize << 20 == 64 * 1024 * 1024) by (bit_vector);
}

/// Reading the layout of a face that is split into tiles uses the directory of
/// the face's block, and so does reading its image if that fits in memory;
/// where there are no tiles, or the directory cannot be read, none is used.  A
/// computed image uses the directory that the larger one uses.
pub proof fn directories_that_reads_use(f: Stream, info: InfoView, faceid: int, res: Res)
    requires
        info.wf(),
        0 <= faceid,
    ensures
        ({
            let source = info.source(faceid, res);
            let entry = entry_of(
                f,
                info,
                source->Ok_0->levelid as int,
                source->Ok_0->facepos as int,
            );
            let (fdh, pos) = entry->Ok_0;
            let used = source is Ok && source->Ok_0 is Stored && entry is Ok && fdh.data
                / 0x4000_0000 == 3 && dir_of(f, pos, res) is Ok;
            let (larger, _) = info.reduced_from(faceid, res);
            &&& layout_dir(f, info, faceid, res) == if used {
                Some((pos, res))
            } else {
                None
            }
            &&& face_dir(f, info, faceid, res) == if source is Ok && source->Ok_0 is Reduced {
                face_dir(f, info, faceid, larger)
            } else if used && res.spec_size() * info.pixel_size <= isize::MAX {
                Some((pos, res))
            } else {
                None
            }
            &&& texel_dir(f, info, faceid, res) == if source is Ok && source->Ok_0 is Reduced {
                face_dir(f, info, faceid, larger)
            } else if used {
                Some((pos, res))
            } else {
                None
            }
        }),
{
}

} // verus!
