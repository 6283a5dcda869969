//! What becomes of a volume when a file is written or a directory is made:
//! where the entry stands and what it holds, the chain of the file, what
//! else stays as it was, and when the work succeeds.

use crate::byteorder::{lemma_u32_round_trip, low32, overlay, u32_le_bytes};
use crate::disk::{ErrorView, lemma_written, sectors_wf};
use crate::fat::{allocate, chain_end, close_chain, cluster_lba, cluster_limit, create_dir, dire_at};
use crate::fat::{directory, DirEntryView, encode_dire, END_MARK, entry_bytes, entry_start};
use crate::fat::{fat_entry, fat_lba, fat_offset, fat_sectors, fat_writable, FatEntry, fill_file};
use crate::fat::{find_entry, find_free, find_start, first_fat_sector, formatted, FREE_MARK};
use crate::fat::{has_name, header_bytes, hop, hop_limit, is_ascii, IS_SUBDIR, Layout, layout_of};
use crate::fat::{lemma_header_layout, Step};
use crate::fat::{lemma_fat_sectors, lemma_first_fat_sector, lemma_format_then_mount, lookup_ext};
use crate::fat::{lookup_stem, make_room, next_of, padded, parent_directory, put_cluster, put_dire};
use crate::fat::{put_named, resolve, Room, ROOT_CLUSTER, scan_room, scan_start, set_fat, slot};
use crate::fat::{SPACE, store_file, stored_ext, stored_stem, stripped, write_chain};
use crate::integrity::{apart, chunks, clusters_of, disjoint, distinct, grown_len, is_chain};
use crate::integrity::{lemma_allocate_first, lemma_allocate_next, lemma_chain_distinct};
use crate::integrity::{lemma_chain_kept, lemma_chain_walk, lemma_cluster_write_keeps_table};
use crate::integrity::{lemma_dir_passed_by, lemma_entry_fields, lemma_entry_round_trip};
use crate::integrity::{lemma_field_round_trip, lemma_find_stored, lemma_formatted_volume};
use crate::integrity::{lemma_found_in_chain, lemma_free_is_apart, lemma_make_room, lemma_put_dire};
use crate::integrity::{lemma_put_file_entry, lemma_room_keeps, lemma_room_made, lemma_set_entry};
use crate::integrity::{lemma_slot_kept, lemma_write_along, lemma_zeroed, room_made, sane, unmarked};
use crate::path::{body_components, body_start, component_text, DOT, file_name_of, is_name};
use crate::path::{lemma_body_names, lemma_dotted_name, lemma_file_name_is_last, lemma_name_as_path};
use crate::path::{lemma_parent_components, lemma_plain_name, lemma_rooted_name, parent_of};
use crate::path::{path_components, SEP, start_components};
use crate::sector::zero_sector;
use vstd::prelude::*;

verus! {

/// A file that is written anew has its name, cut to 8 and 3 bytes, its
/// size and its first cluster in its entry, and a chain of as many clusters as its contents take up, and of
/// one where it is empty: no cluster occurs twice in it, `next_cluster`
/// leads from each of its clusters to the next, and answers at the last
/// one, whose entry ends the chain, that none follows.
///
/// This holds on a sane volume, of a path whose stored name does not start
/// with a zero byte, and whose parent is a directory with a chain that
/// ends and without an entry for the path, and of contents of less than
/// 2^32 bytes, where the writing succeeds. `dir` is the chain of the parent.
/// The entry is the one that room was made for, and the first cluster is
/// the one that was allocated behind that. The proof answers with the chain
/// of the file.
#[verifier::rlimit(50)]
pub proof fn lemma_new_file(
    s: Seq<Seq<u8>>,
    l: Layout,
    size: nat,
    path: Seq<u8>,
    data: Seq<u8>,
    dir: Seq<usize>,
) -> (chain: Seq<usize>)
    requires
        sectors_wf(s),
        sane(l, size),
        data.len() <= u32::MAX,
        is_chain(s, l, size, dir),
        parent_directory(s, l, size, path) == Ok::<usize, ErrorView>(dir[0]),
        find_entry(s, l, dir[0], lookup_stem(path), lookup_ext(path), 0, hop_limit(size)) == Ok::<
            Option<usize>,
            ErrorView,
        >(None),
        stored_stem(path) matches Ok(name) ==> name.len() > 0 && name[0] != 0,
        store_file(s, l, size, path, data).result is Ok,
    ensures
        ({
            let t = store_file(s, l, size, path, data).sectors;
            let room = make_room(s, l, size, dir[0], 0, hop_limit(size));
            let start = allocate(room.sectors, l, size, None).result->Ok_0;
            &&& room.result is Ok
            &&& start >= 2
            &&& dire_at(t, l, dir[0], room.result->Ok_0) == Ok::<DirEntryView, ErrorView>(
                DirEntryView::File {
                    name: stripped(padded(stored_stem(path)->Ok_0, 8)),
                    ext: stripped(padded(stored_ext(path)->Ok_0, 3)),
                    start: start,
                    size: data.len() as usize,
                },
            )
            &&& is_chain(t, l, size, chain)
            &&& distinct(chain)
            &&& chain[0] == start
            &&& chain.len() == clusters_of(data.len() as int)
            &&& forall|k: int|
                0 <= k < chain.len() - 1 ==> next_of(t, l, (#[trigger] chain[k]) as int) == Ok::<
                    Option<usize>,
                    ErrorView,
                >(Some(chain[k + 1]))
            &&& hop(t, l, start, (chain.len() - 1) as nat) == Ok::<usize, ErrorView>(chain.last())
            &&& next_of(t, l, chain.last() as int) == Ok::<Option<usize>, ErrorView>(None)
        }),
{
    let d0 = dir[0];
    let room = make_room(s, l, size, d0, 0, hop_limit(size));
    let d1 = lemma_make_room(s, l, size, dir, 0, hop_limit(size));
    let s1 = room.sectors;
    let i = room.result->Ok_0;
    assert(d1[0] == d0) by {
        assert(d1.subrange(0, dir.len() as int)[0] == dir[0]);
    }
    let fresh = allocate(s1, l, size, None);
    let s2 = fresh.sectors;
    let start = fresh.result->Ok_0;
    lemma_allocate_first(s1, l, size);
    lemma_free_is_apart(s1, l, size, d1, start);
    assert forall|k: int| 0 <= k < d1.len() implies fat_entry(s2, l, (#[trigger] d1[k]) as int)
        == fat_entry(s1, l, d1[k] as int) by {
        assert(d1[k] != start);
    }
    lemma_chain_kept(s1, s2, l, size, d1);
    let len = data.len() as usize;
    assert(store_file(s, l, size, path, data) == fill_file(s2, l, size, path, data, d0, i, start));
    lemma_put_file_entry(s2, l, size, path, d1, i, start, len);
    let s3 = put_named(s2, l, path, d0, i, false, start, len).sectors;
    let one = seq![start];
    assert(is_chain(s3, l, size, one));
    assert(disjoint(d1, one)) by {
        assert forall|a: int, b: int| 0 <= a < d1.len() && 0 <= b < one.len() implies #[trigger] d1[a]
            != #[trigger] one[b] by {
            assert(d1[a] != start);
        }
    }
    let chain = lemma_write_along(s3, l, size, one, 0, data, 0);
    let t = write_chain(s3, l, size, start, data, 0).sectors;
    assert(chain[0] == start) by {
        assert(chain.subrange(0, 1)[0] == one[0]);
    }
    lemma_dir_passed_by(s3, t, l, size, d1, one, i);
    lemma_chain_walk(t, l, size, chain, chain.len() - 1);
    lemma_chain_walks(t, l, size, chain);
    chain
}

/// In a chain that ends no cluster occurs twice, and `next_cluster` leads
/// from each of its clusters but the last to the next.
pub proof fn lemma_chain_walks(s: Seq<Seq<u8>>, l: Layout, size: nat, chain: Seq<usize>)
    requires
        sane(l, size),
        is_chain(s, l, size, chain),
    ensures
        distinct(chain),
        forall|k: int|
            0 <= k < chain.len() - 1 ==> next_of(s, l, (#[trigger] chain[k]) as int) == Ok::<
                Option<usize>,
                ErrorView,
            >(Some(chain[k + 1])),
{
    assert forall|a: int, b: int| 0 <= a < b < chain.len() implies chain[a] != chain[b] by {
        lemma_chain_distinct(s, l, size, chain, a, b);
    }
    assert forall|k: int| 0 <= k < chain.len() - 1 implies next_of(
        s,
        l,
        (#[trigger] chain[k]) as int,
    ) == Ok::<Option<usize>, ErrorView>(Some(chain[k + 1])) by {
        lemma_chain_walk(s, l, size, chain, k);
    }
}

/// A file that is written over has its new size in its entry, keeps its
/// first cluster, and has a chain that ends: the chain it had, grown where
/// the new contents take up more clusters than it had.
///
/// This holds on a sane volume, of a path whose stored name does not start
/// with a zero byte, whose parent is a directory with a chain that ends and
/// with an entry for the path, where the chain of that entry ends and has
/// no cluster in common with that of the directory, and of contents of less
/// than 2^32 bytes, where the writing succeeds. `dir` is the chain of the
/// parent and `file` that of the file. The proof answers with the chain of
/// the file afterwards.
#[verifier::rlimit(50)]
pub proof fn lemma_rewritten_file(
    s: Seq<Seq<u8>>,
    l: Layout,
    size: nat,
    path: Seq<u8>,
    data: Seq<u8>,
    dir: Seq<usize>,
    file: Seq<usize>,
) -> (chain: Seq<usize>)
    requires
        sectors_wf(s),
        sane(l, size),
        data.len() <= u32::MAX,
        is_chain(s, l, size, dir),
        is_chain(s, l, size, file),
        disjoint(dir, file),
        parent_directory(s, l, size, path) == Ok::<usize, ErrorView>(dir[0]),
        find_entry(s, l, dir[0], lookup_stem(path), lookup_ext(path), 0, hop_limit(size)) is Ok,
        find_entry(s, l, dir[0], lookup_stem(path), lookup_ext(path), 0, hop_limit(size))->Ok_0
            matches Some(i) && dire_at(s, l, dir[0], i) matches Ok(d) && entry_start(d) == Some(
            file[0],
        ),
        stored_stem(path) matches Ok(name) ==> name.len() > 0 && name[0] != 0,
        store_file(s, l, size, path, data).result is Ok,
    ensures
        ({
            let t = store_file(s, l, size, path, data).sectors;
            let i = find_entry(
                s,
                l,
                dir[0],
                lookup_stem(path),
                lookup_ext(path),
                0,
                hop_limit(size),
            )->Ok_0->Some_0;
            &&& dire_at(t, l, dir[0], i) == Ok::<DirEntryView, ErrorView>(
                DirEntryView::File {
                    name: stripped(padded(stored_stem(path)->Ok_0, 8)),
                    ext: stripped(padded(stored_ext(path)->Ok_0, 3)),
                    start: file[0],
                    size: data.len() as usize,
                },
            )
            &&& file[0] >= 2
            &&& is_chain(t, l, size, chain)
            &&& chain.len() == grown_len(file.len() as int, 0, chunks(data.len() as int, 0))
            &&& chain.subrange(0, file.len() as int) == file
        }),
{
    let d0 = dir[0];
    let start = file[0];
    let fuel = hop_limit(size);
    let i = find_entry(s, l, d0, lookup_stem(path), lookup_ext(path), 0, fuel)->Ok_0->Some_0;
    lemma_found_in_chain(s, l, size, dir, 0, lookup_stem(path), lookup_ext(path), fuel);
    let len = data.len() as usize;
    assert(store_file(s, l, size, path, data) == fill_file(s, l, size, path, data, d0, i, start));
    lemma_put_file_entry(s, l, size, path, dir, i, start, len);
    let s3 = put_named(s, l, path, d0, i, false, start, len).sectors;
    lemma_chain_kept(s, s3, l, size, file);
    let chain = lemma_write_along(s3, l, size, file, 0, data, 0);
    let t = write_chain(s3, l, size, start, data, 0).sectors;
    lemma_dir_passed_by(s3, t, l, size, dir, file, i);
    chain
}

/// Writing a new file leaves every entry of its directory but its own as
/// it was once room was made for the file, under what `lemma_new_file`
/// asks, on a device that holds all the sectors it declares.
#[verifier::rlimit(50)]
pub proof fn lemma_new_file_others(
    s: Seq<Seq<u8>>,
    l: Layout,
    size: nat,
    path: Seq<u8>,
    data: Seq<u8>,
    dir: Seq<usize>,
    other: usize,
)
    requires
        sectors_wf(s),
        sane(l, size),
        s.len() >= size,
        data.len() <= u32::MAX,
        is_chain(s, l, size, dir),
        parent_directory(s, l, size, path) == Ok::<usize, ErrorView>(dir[0]),
        find_entry(s, l, dir[0], lookup_stem(path), lookup_ext(path), 0, hop_limit(size)) == Ok::<
            Option<usize>,
            ErrorView,
        >(None),
        store_file(s, l, size, path, data).result is Ok,
        other / 16 < dir.len(),
        make_room(s, l, size, dir[0], 0, hop_limit(size)).result != Ok::<usize, ErrorView>(other),
    ensures
        dire_at(store_file(s, l, size, path, data).sectors, l, dir[0], other) == dire_at(
            make_room(s, l, size, dir[0], 0, hop_limit(size)).sectors,
            l,
            dir[0],
            other,
        ),
{
    let d0 = dir[0];
    let room = make_room(s, l, size, d0, 0, hop_limit(size));
    let d1 = lemma_make_room(s, l, size, dir, 0, hop_limit(size));
    let s1 = room.sectors;
    let i = room.result->Ok_0;
    assert(d1[0] == d0) by {
        assert(d1.subrange(0, dir.len() as int)[0] == dir[0]);
    }
    let k = other as int / 16;
    let lba = cluster_lba(l, d1[k] as int);
    assert(0 <= lba < s.len());
    // the first cluster of the file
    let fresh = allocate(s1, l, size, None);
    let s2 = fresh.sectors;
    let start = fresh.result->Ok_0;
    lemma_allocate_first(s1, l, size);
    lemma_free_is_apart(s1, l, size, d1, start);
    assert forall|c: int| 0 <= c < d1.len() implies fat_entry(s2, l, (#[trigger] d1[c]) as int)
        == fat_entry(s1, l, d1[c] as int) by {
        assert(d1[c] != start);
    }
    lemma_chain_kept(s1, s2, l, size, d1);
    lemma_chain_walk(s1, l, size, d1, k);
    lemma_chain_walk(s2, l, size, d1, k);
    assert(d1[k] != start);
    assert(s2[lba] == s1[lba]);
    assert(dire_at(s2, l, d0, other) == dire_at(s1, l, d0, other));
    // its entry
    let len = data.len() as usize;
    assert(store_file(s, l, size, path, data) == fill_file(s2, l, size, path, data, d0, i, start));
    let entry = DirEntryView::File {
        name: stored_stem(path)->Ok_0,
        ext: stored_ext(path)->Ok_0,
        start: start,
        size: len,
    };
    assert(put_named(s2, l, path, d0, i, false, start, len) == put_dire(s2, l, d0, i, entry));
    lemma_put_dire(s2, l, size, d1, i, entry);
    lemma_put_dire_others(s2, l, size, d1, i, entry, other);
    let s3 = put_dire(s2, l, d0, i, entry).sectors;
    // its contents
    let one = seq![start];
    assert(is_chain(s3, l, size, one));
    assert(disjoint(d1, one)) by {
        assert forall|a: int, b: int| 0 <= a < d1.len() && 0 <= b < one.len() implies #[trigger] d1[a]
            != #[trigger] one[b] by {
            assert(d1[a] != start);
        }
    }
    let _ = lemma_write_along(s3, l, size, one, 0, data, 0);
    let t = write_chain(s3, l, size, start, data, 0).sectors;
    lemma_dir_passed_by(s3, t, l, size, d1, one, other);
}

/// Storing an entry in a directory whose chain ends leaves every other
/// entry of the directory as it was.
#[verifier::rlimit(50)]
pub proof fn lemma_put_dire_others(
    s: Seq<Seq<u8>>,
    l: Layout,
    size: nat,
    dir: Seq<usize>,
    i: usize,
    d: DirEntryView,
    other: usize,
)
    requires
        sectors_wf(s),
        sane(l, size),
        is_chain(s, l, size, dir),
        i / 16 < dir.len(),
        other / 16 < dir.len(),
        other != i,
        put_dire(s, l, dir[0], i, d).result is Ok,
    ensures
        dire_at(put_dire(s, l, dir[0], i, d).sectors, l, dir[0], other) == dire_at(
            s,
            l,
            dir[0],
            other,
        ),
{
    lemma_put_dire(s, l, size, dir, i, d);
    let t = put_dire(s, l, dir[0], i, d).sectors;
    let ko = other as int / 16;
    let ki = i as int / 16;
    let lba = cluster_lba(l, dir[ko] as int);
    lemma_chain_walk(s, l, size, dir, ko);
    lemma_chain_walk(t, l, size, dir, ko);
    if lba < s.len() {
        if ko != ki {
            if ko < ki {
                lemma_chain_distinct(s, l, size, dir, ko, ki);
            } else {
                lemma_chain_distinct(s, l, size, dir, ki, ko);
            }
            assert(t[lba] == s[lba]);
        } else {
            lemma_entry_round_trip(slot(s[lba], i as int % 16), d);
            lemma_slot_kept(
                s[lba],
                i as int % 16,
                encode_dire(slot(s[lba], i as int % 16), d),
                other as int % 16,
            );
        }
    }
}

/// Writing a file over leaves every other entry of its directory as it
/// was, under what `lemma_rewritten_file` asks.
#[verifier::rlimit(50)]
pub proof fn lemma_rewritten_others(
    s: Seq<Seq<u8>>,
    l: Layout,
    size: nat,
    path: Seq<u8>,
    data: Seq<u8>,
    dir: Seq<usize>,
    file: Seq<usize>,
    other: usize,
)
    requires
        sectors_wf(s),
        sane(l, size),
        data.len() <= u32::MAX,
        is_chain(s, l, size, dir),
        is_chain(s, l, size, file),
        disjoint(dir, file),
        parent_directory(s, l, size, path) == Ok::<usize, ErrorView>(dir[0]),
        find_entry(s, l, dir[0], lookup_stem(path), lookup_ext(path), 0, hop_limit(size)) is Ok,
        find_entry(s, l, dir[0], lookup_stem(path), lookup_ext(path), 0, hop_limit(size))->Ok_0
            matches Some(i) && dire_at(s, l, dir[0], i) matches Ok(d) && entry_start(d) == Some(
            file[0],
        ),
        find_entry(s, l, dir[0], lookup_stem(path), lookup_ext(path), 0, hop_limit(size))->Ok_0
            != Some(other),
        stored_stem(path) matches Ok(name) ==> name.len() > 0 && name[0] != 0,
        store_file(s, l, size, path, data).result is Ok,
        other / 16 < dir.len(),
    ensures
        dire_at(store_file(s, l, size, path, data).sectors, l, dir[0], other) == dire_at(
            s,
            l,
            dir[0],
            other,
        ),
{
    let d0 = dir[0];
    let start = file[0];
    let fuel = hop_limit(size);
    let i = find_entry(s, l, d0, lookup_stem(path), lookup_ext(path), 0, fuel)->Ok_0->Some_0;
    lemma_found_in_chain(s, l, size, dir, 0, lookup_stem(path), lookup_ext(path), fuel);
    let len = data.len() as usize;
    assert(store_file(s, l, size, path, data) == fill_file(s, l, size, path, data, d0, i, start));
    let entry = DirEntryView::File {
        name: stored_stem(path)->Ok_0,
        ext: stored_ext(path)->Ok_0,
        start: start,
        size: len,
    };
    assert(put_named(s, l, path, d0, i, false, start, len) == put_dire(s, l, d0, i, entry));
    lemma_put_dire(s, l, size, dir, i, entry);
    lemma_put_dire_others(s, l, size, dir, i, entry, other);
    let s3 = put_dire(s, l, d0, i, entry).sectors;
    lemma_chain_kept(s, s3, l, size, file);
    let _ = lemma_write_along(s3, l, size, file, 0, data, 0);
    let t = write_chain(s3, l, size, start, data, 0).sectors;
    if cluster_lba(l, dir[other as int / 16] as int) < s.len() {
        lemma_dir_passed_by(s3, t, l, size, dir, file, other);
    } else {
        lemma_dir_passed_by(s3, t, l, size, dir, file, i);
        lemma_chain_walk(t, l, size, dir, other as int / 16);
        lemma_chain_walk(s3, l, size, dir, other as int / 16);
    }
}

/// Whether the path `path` names something in the root directory: it has
/// one name for its only component, or the root and one name.
pub open spec fn in_root(path: Seq<u8>) -> bool {
    let comps = path_components(path);
    ||| comps.len() == 1 && comps[0] is Normal
    ||| comps.len() == 2 && comps[0] is RootDir && comps[1] is Normal
}

/// The parent of something in the root directory is the root directory.
pub proof fn lemma_parent_in_root(s: Seq<Seq<u8>>, l: Layout, size: nat, path: Seq<u8>)
    requires
        in_root(path),
    ensures
        parent_directory(s, l, size, path) == Ok::<usize, ErrorView>(ROOT_CLUSTER),
{
    lemma_parent_components(path);
    let comps = path_components(path);
    assert(parent_of(path) is Some) by {
        if parent_of(path) is None {
            assert(comps.last() is Normal);
        }
    }
    let p = parent_of(path)->Some_0;
    assert(path_components(p) == comps.drop_last());
    reveal_with_fuel(resolve, 2);
    if comps.len() == 2 {
        assert(path_components(p)[0] is RootDir);
    }
}

/// The room that was made in the sectors `b` of a directory is room made
/// in the sectors `s`, where the clusters of the directory hold in `b` what
/// they hold in `s`; and it stays so where the entry `i` is then stored.
pub proof fn lemma_new_dir_scan(
    s: Seq<Seq<u8>>,
    b: Seq<Seq<u8>>,
    c: Seq<Seq<u8>>,
    t: Seq<Seq<u8>>,
    l: Layout,
    size: nat,
    chain: Seq<usize>,
    i: int,
    bytes: Seq<u8>,
)
    requires
        sane(l, size),
        sectors_wf(c),
        s.len() == b.len() == c.len(),
        is_chain(s, l, size, chain),
        forall|k: int|
            0 <= k < chain.len() && cluster_lba(l, (#[trigger] chain[k]) as int) < s.len()
                ==> b[cluster_lba(l, chain[k] as int)] == s[cluster_lba(l, chain[k] as int)],
        room_made(b, c, l, chain, 0, i),
        bytes.len() == 32,
        t == c.update(
            cluster_lba(l, chain[i / 16] as int),
            overlay(c[cluster_lba(l, chain[i / 16] as int)], 32 * (i % 16), bytes),
        ),
    ensures
        room_made(s, t, l, chain, 0, i),
        slot(t[cluster_lba(l, chain[i / 16] as int)], i % 16) == bytes,
{
    let k = i / 16;
    let j = i % 16;
    let lba = cluster_lba(l, chain[k] as int);
    assert forall|x: int| 0 <= x < k implies cluster_lba(l, (#[trigger] chain[x]) as int) < s.len()
        && unmarked(s[cluster_lba(l, chain[x] as int)], 0, 16) && t[cluster_lba(
        l,
        chain[x] as int,
    )] == s[cluster_lba(l, chain[x] as int)] by {
        lemma_chain_distinct(s, l, size, chain, x, k);
        assert(cluster_lba(l, chain[x] as int) != lba);
    }
    assert forall|y: int| 0 <= y < j implies #[trigger] slot(t[lba], y) == slot(s[lba], y) by {
        assert(slot(t[lba], y) =~= slot(c[lba], y));
        assert(slot(c[lba], y) == slot(b[lba], y));
    }
    assert(slot(t[lba], j) =~= bytes);
}

/// Where the parent of a path leads to a directory, the path leads to the
/// cluster that this directory has for the name of the path.
#[verifier::rlimit(50)]
pub proof fn lemma_resolve_last(t: Seq<Seq<u8>>, l: Layout, size: nat, path: Seq<u8>, dir: usize, c: usize)
    requires
        file_name_of(path) is Some,
        parent_directory(t, l, size, path) == Ok::<usize, ErrorView>(dir),
        c >= 2,
        find_start(t, l, size, dir, lookup_stem(path), lookup_ext(path)) == Ok::<
            Option<usize>,
            ErrorView,
        >(Some(c)),
    ensures
        directory(t, l, size, path) == Ok::<usize, ErrorView>(c),
{
    let comps = path_components(path);
    lemma_file_name_is_last(path);
    lemma_parent_components(path);
    let last = comps.len() - 1;
    let n = comps[last]->Normal_0;
    assert(parent_of(path) is Some) by {
        if parent_of(path) is None {
            assert(comps.last() is Normal);
        }
    }
    let p = parent_of(path)->Some_0;
    lemma_resolve_prefix(t, l, size, path, p, 0, ROOT_CLUSTER, dir);
    // the last component is looked up by the stem and the extension of the path
    let before = start_components(path);
    let body = body_components(path, body_start(path), path.len() as int);
    assert(comps[last] == body[last - before.len()]) by {
        if before.len() > last {
            assert(comps[last] == before[last]);
        }
    }
    lemma_body_names(path, body_start(path), path.len() as int, last - before.len());
    lemma_name_as_path(n);
    assert(component_text(comps[last]) == n);
    assert(lookup_stem(n) == lookup_stem(path));
    assert(lookup_ext(n) == lookup_ext(path));
    reveal_with_fuel(resolve, 2);
}

/// Following a path leads, over its components but the last, where
/// following its parent leads over these components.
pub proof fn lemma_resolve_prefix(
    t: Seq<Seq<u8>>,
    l: Layout,
    size: nat,
    path: Seq<u8>,
    parent: Seq<u8>,
    k: int,
    at: usize,
    dir: usize,
)
    requires
        path_components(path).len() > 0,
        path_components(parent) == path_components(path).drop_last(),
        0 <= k < path_components(path).len(),
        resolve(t, l, size, parent, k, at) == Ok::<usize, ErrorView>(dir),
    ensures
        resolve(t, l, size, path, k, at) == resolve(
            t,
            l,
            size,
            path,
            path_components(path).len() - 1,
            dir,
        ),
    decreases path_components(path).len() - k,
{
    let comps = path_components(path);
    let short = path_components(parent);
    if k < comps.len() - 1 {
        assert(short[k] == comps[k]);
        if comps[k] is RootDir {
            lemma_resolve_prefix(t, l, size, path, parent, k + 1, ROOT_CLUSTER, dir);
        } else {
            let text = component_text(comps[k]);
            match find_start(t, l, size, at, lookup_stem(text), lookup_ext(text)) {
                Ok(Some(c)) => {
                    lemma_resolve_prefix(t, l, size, path, parent, k + 1, c, dir);
                },
                _ => {},
            }
        }
    }
}

/// A directory that was made is found in its parent: its entry holds its
/// name and the cluster that was allocated for it, its path leads to that
/// cluster, and it is empty.
///
/// This holds on a sane volume on which the parent has a chain that ends,
/// with `dir` as that chain, and no entry for the path; of a path whose
/// stem and extension are no longer than 8 and 3 bytes, do not end in a
/// space, and do not start with a zero byte; where the making succeeds, and
/// the path of the parent leads to the parent afterwards as it did before.
#[verifier::rlimit(50)]
pub proof fn lemma_new_dir(s: Seq<Seq<u8>>, l: Layout, size: nat, path: Seq<u8>, dir: Seq<usize>)
    requires
        sectors_wf(s),
        sane(l, size),
        is_chain(s, l, size, dir),
        parent_directory(s, l, size, path) == Ok::<usize, ErrorView>(dir[0]),
        parent_directory(create_dir(s, l, size, path).sectors, l, size, path) == Ok::<
            usize,
            ErrorView,
        >(dir[0]),
        find_entry(s, l, dir[0], lookup_stem(path), lookup_ext(path), 0, hop_limit(size)) == Ok::<
            Option<usize>,
            ErrorView,
        >(None),
        stored_stem(path) matches Ok(name) ==> 0 < name.len() <= 8 && name[0] != 0 && name.last()
            != SPACE,
        stored_ext(path) matches Ok(ext) ==> ext.len() <= 3 && (ext.len() > 0 ==> ext.last()
            != SPACE),
        create_dir(s, l, size, path).result is Ok,
    ensures
        ({
            let t = create_dir(s, l, size, path).sectors;
            let fresh = allocate(s, l, size, None);
            let emptied = put_dire(fresh.sectors, l, fresh.result->Ok_0, 0, DirEntryView::End);
            let room = make_room(emptied.sectors, l, size, dir[0], 0, hop_limit(size));
            &&& fresh.result is Ok
            &&& room.result is Ok
            &&& dire_at(t, l, dir[0], room.result->Ok_0) == Ok::<DirEntryView, ErrorView>(
                DirEntryView::Dir {
                    name: stored_stem(path)->Ok_0,
                    ext: stored_ext(path)->Ok_0,
                    start: fresh.result->Ok_0,
                },
            )
            &&& directory(t, l, size, path) == Ok::<usize, ErrorView>(fresh.result->Ok_0)
            &&& dire_at(t, l, fresh.result->Ok_0, 0) == Ok::<DirEntryView, ErrorView>(
                DirEntryView::End,
            )
        }),
{
    let d0 = dir[0];
    let stem = lookup_stem(path);
    let ext = lookup_ext(path);
    let fuel = hop_limit(size);
    // a cluster for the new directory, made empty
    let fresh = allocate(s, l, size, None);
    let new_c = fresh.result->Ok_0;
    let b = put_dire(fresh.sectors, l, new_c, 0, DirEntryView::End).sectors;
    lemma_dir_prepared(s, l, size, dir);
    // room in the parent, and the entry
    let room = make_room(b, l, size, d0, 0, fuel);
    let c = room.sectors;
    let i = room.result->Ok_0;
    let name = stored_stem(path)->Ok_0;
    let e = stored_ext(path)->Ok_0;
    let entry = DirEntryView::Dir { name: name, ext: e, start: new_c };
    assert(create_dir(s, l, size, path) == put_dire(c, l, d0, i, entry));
    let dir1 = lemma_dir_entered(b, l, size, dir, new_c, name, e);
    let t = put_dire(c, l, d0, i, entry).sectors;
    // what the search for the name saw before, it sees again
    lemma_new_dir_scan(
        s,
        b,
        c,
        t,
        l,
        size,
        dir,
        i as int,
        entry_bytes(name, e, IS_SUBDIR, new_c, 0),
    );
    lemma_find_stored(s, t, l, size, dir, dir1, stem, ext, 0, i as int, fuel);
    assert(find_start(t, l, size, d0, stem, ext) == Ok::<Option<usize>, ErrorView>(Some(new_c)));
    // the path leads there
    lemma_resolve_last(t, l, size, path, d0, new_c);
}

/// The first steps of making a directory, on a sane volume: a cluster is
/// allocated and made an empty directory. It is no cluster of a chain that
/// ended before, and the clusters of such a chain stay as they were.
pub proof fn lemma_dir_prepared(s: Seq<Seq<u8>>, l: Layout, size: nat, dir: Seq<usize>)
    requires
        sectors_wf(s),
        sane(l, size),
        is_chain(s, l, size, dir),
        allocate(s, l, size, None).result is Ok,
        put_dire(
            allocate(s, l, size, None).sectors,
            l,
            allocate(s, l, size, None).result->Ok_0,
            0,
            DirEntryView::End,
        ).result is Ok,
    ensures
        ({
            let new_c = allocate(s, l, size, None).result->Ok_0;
            let b = put_dire(allocate(s, l, size, None).sectors, l, new_c, 0, DirEntryView::End).sectors;
            &&& sectors_wf(b)
            &&& b.len() == s.len()
            &&& 2 <= new_c < cluster_limit(l, size)
            &&& cluster_lba(l, new_c as int) < s.len()
            &&& apart(dir, new_c)
            &&& is_chain(b, l, size, dir)
            &&& is_chain(b, l, size, seq![new_c])
            &&& dire_at(b, l, new_c, 0) == Ok::<DirEntryView, ErrorView>(DirEntryView::End)
            &&& forall|k: int|
                0 <= k < dir.len() && cluster_lba(l, (#[trigger] dir[k]) as int) < s.len()
                    ==> b[cluster_lba(l, dir[k] as int)] == s[cluster_lba(l, dir[k] as int)]
        }),
{
    let fresh = allocate(s, l, size, None);
    let a = fresh.sectors;
    let new_c = fresh.result->Ok_0;
    lemma_allocate_first(s, l, size);
    lemma_free_is_apart(s, l, size, dir, new_c);
    assert forall|k: int| 0 <= k < dir.len() implies fat_entry(a, l, (#[trigger] dir[k]) as int)
        == fat_entry(s, l, dir[k] as int) by {
        assert(dir[k] != new_c);
    }
    lemma_chain_kept(s, a, l, size, dir);
    let one = seq![new_c];
    assert(is_chain(a, l, size, one));
    lemma_put_dire(a, l, size, one, 0, DirEntryView::End);
    let b = put_dire(a, l, new_c, 0, DirEntryView::End).sectors;
    lemma_chain_kept(a, b, l, size, dir);
    assert(is_chain(b, l, size, one));
    lemma_entry_round_trip(slot(a[cluster_lba(l, new_c as int)], 0), DirEntryView::End);
    assert forall|k: int| 0 <= k < dir.len() && cluster_lba(l, (#[trigger] dir[k]) as int)
        < s.len() implies b[cluster_lba(l, dir[k] as int)] == s[cluster_lba(l, dir[k] as int)] by {
        assert(dir[k] != new_c);
        assert(a[cluster_lba(l, dir[k] as int)] == s[cluster_lba(l, dir[k] as int)]);
    }
}

/// The last steps of making a directory, on a sane volume: room is made in
/// the parent, whose chain ends, and the entry is stored there. The entry
/// reads back with its name and the cluster of the new directory, which
/// stays as it was. The proof answers with the chain of the parent
/// afterwards.
#[verifier::rlimit(50)]
pub proof fn lemma_dir_entered(
    b: Seq<Seq<u8>>,
    l: Layout,
    size: nat,
    dir: Seq<usize>,
    new_c: usize,
    name: Seq<u8>,
    ext: Seq<u8>,
) -> (dir1: Seq<usize>)
    requires
        sectors_wf(b),
        sane(l, size),
        is_chain(b, l, size, dir),
        is_chain(b, l, size, seq![new_c]),
        apart(dir, new_c),
        cluster_lba(l, new_c as int) < b.len(),
        0 < name.len() <= 8,
        name[0] != 0,
        name.last() != SPACE,
        is_ascii(name),
        ext.len() <= 3,
        ext.len() > 0 ==> ext.last() != SPACE,
        make_room(b, l, size, dir[0], 0, hop_limit(size)).result is Ok,
        put_dire(
            make_room(b, l, size, dir[0], 0, hop_limit(size)).sectors,
            l,
            dir[0],
            make_room(b, l, size, dir[0], 0, hop_limit(size)).result->Ok_0,
            DirEntryView::Dir { name: name, ext: ext, start: new_c },
        ).result is Ok,
    ensures
        ({
            let room = make_room(b, l, size, dir[0], 0, hop_limit(size));
            let c = room.sectors;
            let i = room.result->Ok_0;
            let entry = DirEntryView::Dir { name: name, ext: ext, start: new_c };
            let t = put_dire(c, l, dir[0], i, entry).sectors;
            let lba = cluster_lba(l, dir[i as int / 16] as int);
            &&& sectors_wf(c)
            &&& c.len() == b.len()
            &&& t.len() == b.len()
            &&& room_made(b, c, l, dir, 0, i as int)
            &&& is_chain(t, l, size, dir1)
            &&& dir1.len() >= dir.len()
            &&& dir1.subrange(0, dir.len() as int) == dir
            &&& t == c.update(
                lba,
                overlay(c[lba], 32 * (i as int % 16), entry_bytes(name, ext, IS_SUBDIR, new_c, 0)),
            )
            &&& entry_bytes(name, ext, IS_SUBDIR, new_c, 0).len() == 32
            &&& entry_bytes(name, ext, IS_SUBDIR, new_c, 0)[0] != END_MARK
            &&& entry_bytes(name, ext, IS_SUBDIR, new_c, 0)[0] != FREE_MARK
            &&& has_name(entry_bytes(name, ext, IS_SUBDIR, new_c, 0), name, ext)
            &&& dire_at(t, l, dir[0], i) == Ok::<DirEntryView, ErrorView>(entry)
            &&& dire_at(t, l, new_c, 0) == dire_at(b, l, new_c, 0)
        }),
{
    let d0 = dir[0];
    let fuel = hop_limit(size);
    let room = make_room(b, l, size, d0, 0, fuel);
    let dir1 = lemma_make_room(b, l, size, dir, 0, fuel);
    lemma_room_made(b, l, size, dir, 0, fuel);
    let c = room.sectors;
    let i = room.result->Ok_0;
    assert(dir1[0] == d0) by {
        assert(dir1.subrange(0, dir.len() as int)[0] == dir[0]);
    }
    let entry = DirEntryView::Dir { name: name, ext: ext, start: new_c };
    lemma_put_dire(c, l, size, dir1, i, entry);
    let t = put_dire(c, l, d0, i, entry).sectors;
    let cd = dir1[i as int / 16];
    assert(cd == dir[i as int / 16]) by {
        assert(dir1.subrange(0, dir.len() as int)[i as int / 16] == dir[i as int / 16]);
    }
    let lba = cluster_lba(l, cd as int);
    lemma_entry_round_trip(slot(c[lba], i as int % 16), entry);
    lemma_entry_fields(name, ext, IS_SUBDIR, new_c, 0);
    lemma_field_round_trip(name, 8);
    lemma_field_round_trip(ext, 3);
    assert(low32(new_c) == new_c);
    // the new directory is passed by
    assert(cd != new_c);
    lemma_room_keeps(b, l, size, dir, 0, fuel, new_c);
    assert(t[cluster_lba(l, new_c as int)] == b[cluster_lba(l, new_c as int)]);
    assert(fat_entry(t, l, new_c as int) == fat_entry(b, l, new_c as int));
    assert(hop(t, l, new_c, 0) == hop(b, l, new_c, 0));
    dir1
}

/// A directory that was made in the root directory is found there: what
/// `lemma_new_dir` states holds of a path in the root directory with no
/// word on where the path of its parent leads afterwards.
#[verifier::rlimit(50)]
pub proof fn lemma_new_dir_in_root(
    s: Seq<Seq<u8>>,
    l: Layout,
    size: nat,
    path: Seq<u8>,
    root: Seq<usize>,
)
    requires
        sectors_wf(s),
        sane(l, size),
        is_chain(s, l, size, root),
        root[0] == ROOT_CLUSTER,
        in_root(path),
        find_entry(s, l, ROOT_CLUSTER, lookup_stem(path), lookup_ext(path), 0, hop_limit(size))
            == Ok::<Option<usize>, ErrorView>(None),
        stored_stem(path) matches Ok(name) ==> 0 < name.len() <= 8 && name[0] != 0 && name.last()
            != SPACE,
        stored_ext(path) matches Ok(ext) ==> ext.len() <= 3 && (ext.len() > 0 ==> ext.last()
            != SPACE),
        create_dir(s, l, size, path).result is Ok,
    ensures
        ({
            let t = create_dir(s, l, size, path).sectors;
            let fresh = allocate(s, l, size, None);
            let emptied = put_dire(fresh.sectors, l, fresh.result->Ok_0, 0, DirEntryView::End);
            let room = make_room(emptied.sectors, l, size, ROOT_CLUSTER, 0, hop_limit(size));
            &&& fresh.result is Ok
            &&& room.result is Ok
            &&& dire_at(t, l, ROOT_CLUSTER, room.result->Ok_0) == Ok::<DirEntryView, ErrorView>(
                DirEntryView::Dir {
                    name: stored_stem(path)->Ok_0,
                    ext: stored_ext(path)->Ok_0,
                    start: fresh.result->Ok_0,
                },
            )
            &&& directory(t, l, size, path) == Ok::<usize, ErrorView>(fresh.result->Ok_0)
            &&& dire_at(t, l, fresh.result->Ok_0, 0) == Ok::<DirEntryView, ErrorView>(
                DirEntryView::End,
            )
        }),
{
    lemma_parent_in_root(s, l, size, path);
    lemma_parent_in_root(create_dir(s, l, size, path).sectors, l, size, path);
    lemma_new_dir(s, l, size, path, root);
}

/// Whether, of the clusters from the first that an allocation looks at on
/// and below `top`, those below `x` are in use and those from `x` on are
/// free.
pub open spec fn free_from(s: Seq<Seq<u8>>, l: Layout, x: int, top: int) -> bool {
    &&& scan_start(l) <= x <= top
    &&& forall|c: int|
        scan_start(l) <= c < top ==> (#[trigger] fat_entry(s, l, c)) is Ok && (fat_entry(s, l, c)
            == Ok::<FatEntry, ErrorView>(FatEntry::Free) <==> c >= x)
}

/// The search for a free cluster ends on the first cluster that is free.
pub proof fn lemma_first_free(s: Seq<Seq<u8>>, l: Layout, from: int, limit: int, x: int, top: int)
    requires
        free_from(s, l, x, top),
        scan_start(l) <= from <= x < top <= limit,
    ensures
        find_free(s, l, from, limit) == Ok::<int, ErrorView>(x),
    decreases x - from,
{
    if from < x {
        assert(fat_entry(s, l, from) is Ok);
        lemma_first_free(s, l, from + 1, limit, x, top);
    } else {
        assert(fat_entry(s, l, x) == Ok::<FatEntry, ErrorView>(FatEntry::Free));
    }
}

/// An allocation succeeds, on a sane volume on a device that holds all the
/// sectors it declares, where a cluster is free: it gives the first free
/// cluster, which then ends a chain, and the clusters behind it stay free.
#[verifier::rlimit(50)]
pub proof fn lemma_allocate_succeeds(
    s: Seq<Seq<u8>>,
    l: Layout,
    size: nat,
    prev: Option<usize>,
    x: int,
    top: int,
)
    requires
        sectors_wf(s),
        sane(l, size),
        s.len() >= size,
        free_from(s, l, x, top),
        x < top <= cluster_limit(l, size),
        prev matches Some(o) ==> 2 <= o < cluster_limit(l, size) && fat_entry(s, l, o as int)
            == Ok::<FatEntry, ErrorView>(FatEntry::End),
    ensures
        allocate(s, l, size, prev).result == Ok::<usize, ErrorView>(x as usize),
        sectors_wf(allocate(s, l, size, prev).sectors),
        allocate(s, l, size, prev).sectors.len() == s.len(),
        free_from(allocate(s, l, size, prev).sectors, l, x + 1, top),
        fat_entry(allocate(s, l, size, prev).sectors, l, x) == Ok::<FatEntry, ErrorView>(
            FatEntry::End,
        ),
        forall|c: int|
            0 <= c < scan_start(l) && prev != Some(c as usize) ==> #[trigger] fat_entry(
                allocate(s, l, size, prev).sectors,
                l,
                c,
            ) == fat_entry(s, l, c),
{
    let limit = cluster_limit(l, size);
    lemma_first_free(s, l, scan_start(l), limit, x, top);
    assert(put_cluster(s, l, x, zero_sector()).result is Ok);
    lemma_zeroed(s, l, size);
    let z = put_cluster(s, l, x, zero_sector()).sectors;
    let t = allocate(s, l, size, prev).sectors;
    match prev {
        None => {
            assert(allocate(s, l, size, prev) == close_chain(z, l, x));
            lemma_allocate_first(s, l, size);
        },
        Some(o) => {
            assert(fat_entry(z, l, o as int) == fat_entry(s, l, o as int));
            assert(chain_end(z, l, o as int, size) == Ok::<int, ErrorView>(o as int));
            lemma_cluster_write_keeps_table(s, l, size, cluster_lba(l, x), zero_sector(), o as int);
            let link = FatEntry::Cont(low32(x as usize));
            assert(fat_writable(z, l, o as int) is Ok);
            lemma_set_entry(z, l, o as int, link, x);
            let k = set_fat(z, l, o as int, link).sectors;
            assert(fat_writable(k, l, x) is Ok);
            assert(allocate(s, l, size, prev) == close_chain(k, l, x));
            lemma_allocate_next(s, l, size, o);
        },
    }
    assert forall|c: int| scan_start(l) <= c < top implies (#[trigger] fat_entry(t, l, c)) is Ok && (
    fat_entry(t, l, c) == Ok::<FatEntry, ErrorView>(FatEntry::Free) <==> c >= x + 1) by {
        assert(fat_entry(s, l, c) is Ok);
        if c != x && prev != Some(c as usize) {
            assert(fat_entry(t, l, c) == fat_entry(s, l, c));
        }
    }
}

/// Writing the contents of a file succeeds, on a sane volume on a device
/// that holds all the sectors it declares, from a cluster that ends its
/// chain, where as many clusters are free as the contents take up behind
/// that cluster.
#[verifier::rlimit(50)]
pub proof fn lemma_write_succeeds(
    s: Seq<Seq<u8>>,
    l: Layout,
    size: nat,
    cluster: usize,
    data: Seq<u8>,
    from: int,
    x: int,
    top: int,
)
    requires
        sectors_wf(s),
        sane(l, size),
        s.len() >= size,
        2 <= cluster < cluster_limit(l, size),
        fat_entry(s, l, cluster as int) == Ok::<FatEntry, ErrorView>(FatEntry::End),
        free_from(s, l, x, top),
        top <= cluster_limit(l, size),
        0 <= from <= data.len(),
        from < data.len() ==> x + chunks(data.len() as int, from) - 1 <= top,
    ensures
        write_chain(s, l, size, cluster, data, from).result is Ok,
    decreases data.len() - from,
{
    if from < data.len() {
        let upto = if from + 512 <= data.len() {
            from + 512
        } else {
            data.len() as int
        };
        let chunk = data.subrange(from, upto);
        let lba = cluster_lba(l, cluster as int);
        assert(put_cluster(s, l, cluster as int, chunk).result is Ok);
        if upto < data.len() {
            let s1 = put_cluster(s, l, cluster as int, chunk).sectors;
            lemma_written(s, lba, chunk);
            assert forall|c: int| 0 <= c < cluster_limit(l, size) implies #[trigger] fat_entry(
                s1,
                l,
                c,
            ) == fat_entry(s, l, c) by {
                lemma_cluster_write_keeps_table(s, l, size, lba, chunk, c);
            }
            assert(free_from(s1, l, x, top));
            assert(next_of(s1, l, cluster as int) == Ok::<Option<usize>, ErrorView>(None));
            lemma_allocate_succeeds(s1, l, size, Some(cluster), x, top);
            let s2 = allocate(s1, l, size, Some(cluster)).sectors;
            assert(write_chain(s, l, size, cluster, data, from) == write_chain(
                s2,
                l,
                size,
                x as usize,
                data,
                upto,
            ));
            lemma_write_succeeds(s2, l, size, x as usize, data, upto, x + 1, top);
        }
    }
}

/// Room is made in the first entry of a directory that this entry ends,
/// where the cluster of the directory can be read: the entry is marked as
/// not in use and the end is stored behind it.
pub proof fn lemma_room_first_succeeds(
    s: Seq<Seq<u8>>,
    l: Layout,
    size: nat,
    cluster: usize,
    fuel: nat,
)
    requires
        0 <= cluster_lba(l, cluster as int) < s.len(),
        slot(s[cluster_lba(l, cluster as int)], 0)[0] == END_MARK,
    ensures
        put_dire(s, l, cluster, 0, DirEntryView::Free).result is Ok,
        put_dire(
            put_dire(s, l, cluster, 0, DirEntryView::Free).sectors,
            l,
            cluster,
            1,
            DirEntryView::End,
        ).result is Ok,
        make_room(s, l, size, cluster, 0, fuel) == (Step {
            sectors: put_dire(
                put_dire(s, l, cluster, 0, DirEntryView::Free).sectors,
                l,
                cluster,
                1,
                DirEntryView::End,
            ).sectors,
            result: Ok::<usize, ErrorView>(0),
        }),
{
    let lba = cluster_lba(l, cluster as int);
    assert(scan_room(s[lba], 0) == Room::End(0));
    assert(hop(s, l, cluster, 0) == Ok::<usize, ErrorView>(cluster));
    let s1 = put_dire(s, l, cluster, 0, DirEntryView::Free).sectors;
    assert(s1.len() == s.len());
    assert(hop(s1, l, cluster, 0) == Ok::<usize, ErrorView>(cluster));
}

/// The first cluster behind the clusters of a formatted volume on `dsize`
/// sectors that an allocation can give: none lies behind the device, and
/// none has its entry behind the first table.
pub open spec fn free_top(dsize: int) -> int {
    let limit = dsize - (33 + 2 * fat_sectors(dsize)) + 2;
    if limit <= 128 * fat_sectors(dsize) {
        limit
    } else {
        128 * fat_sectors(dsize)
    }
}

/// On a formatted volume every cluster from the first that an allocation
/// looks at on is free, as far as the first table has entries.
#[verifier::rlimit(50)]
pub proof fn lemma_formatted_free(s: Seq<Seq<u8>>, dsize: usize)
    requires
        sectors_wf(s),
        s.len() == dsize,
        36 <= dsize <= 0x0FFF_FFEF,
        33 + 2 * fat_sectors(dsize as int) <= free_top(dsize as int),
    ensures
        free_top(dsize as int) <= cluster_limit(layout_of(formatted(s, dsize)[0]), dsize as nat),
        scan_start(layout_of(formatted(s, dsize)[0])) == 33 + 2 * fat_sectors(dsize as int),
        free_from(
            formatted(s, dsize),
            layout_of(formatted(s, dsize)[0]),
            33 + 2 * fat_sectors(dsize as int),
            free_top(dsize as int),
        ),
{
    reveal(fat_entry);
    lemma_fat_sectors(dsize as int);
    let f = fat_sectors(dsize as int);
    let t = formatted(s, dsize);
    lemma_header_layout(dsize, f as usize);
    let l = layout_of(t[0]);
    assert(t[0] == header_bytes(dsize, f as usize));
    assert(l.fat_begin == 33 && l.cluster_begin == 33 + 2 * f);
    let top = free_top(dsize as int);
    assert forall|c: int| scan_start(l) <= c < top implies (#[trigger] fat_entry(t, l, c)) is Ok && (
    fat_entry(t, l, c) == Ok::<FatEntry, ErrorView>(FatEntry::Free) <==> c >= 33 + 2 * f) by {
        let at = fat_lba(l, c);
        assert(33 <= at < 33 + f);
        if c < 128 {
            assert(at == 33);
            assert(t[at] == first_fat_sector());
            lemma_first_fat_sector(c);
        } else {
            assert(t[at] == zero_sector());
            let off = fat_offset(c);
            assert(zero_sector().subrange(off, off + 4) =~= u32_le_bytes(0));
            lemma_u32_round_trip(0);
        }
    }
}

/// Writing a new file succeeds, on a sane volume on a device that holds all
/// the sectors it declares: where the parent is a directory with a chain
/// that ends, room can be made in it, the name can be stored, and, once the
/// room is made, as many clusters are free as the contents take up, and one
/// where they are empty.
#[verifier::rlimit(50)]
pub proof fn lemma_new_file_succeeds(
    s: Seq<Seq<u8>>,
    l: Layout,
    size: nat,
    path: Seq<u8>,
    data: Seq<u8>,
    dir: Seq<usize>,
    x: int,
    top: int,
)
    requires
        sectors_wf(s),
        sane(l, size),
        s.len() >= size,
        is_chain(s, l, size, dir),
        parent_directory(s, l, size, path) == Ok::<usize, ErrorView>(dir[0]),
        find_entry(s, l, dir[0], lookup_stem(path), lookup_ext(path), 0, hop_limit(size)) == Ok::<
            Option<usize>,
            ErrorView,
        >(None),
        stored_stem(path) is Ok,
        stored_ext(path) is Ok,
        make_room(s, l, size, dir[0], 0, hop_limit(size)).result is Ok,
        free_from(make_room(s, l, size, dir[0], 0, hop_limit(size)).sectors, l, x, top),
        top <= cluster_limit(l, size),
        x + clusters_of(data.len() as int) <= top,
    ensures
        store_file(s, l, size, path, data).result is Ok,
        allocate(make_room(s, l, size, dir[0], 0, hop_limit(size)).sectors, l, size, None).result
            == Ok::<usize, ErrorView>(x as usize),
{
    let d0 = dir[0];
    let fuel = hop_limit(size);
    let room = make_room(s, l, size, d0, 0, fuel);
    let d1 = lemma_make_room(s, l, size, dir, 0, fuel);
    let s1 = room.sectors;
    let i = room.result->Ok_0;
    assert(d1[0] == d0) by {
        assert(d1.subrange(0, dir.len() as int)[0] == dir[0]);
    }
    // the first cluster of the file
    lemma_allocate_succeeds(s1, l, size, None, x, top);
    let s2 = allocate(s1, l, size, None).sectors;
    assert(fat_entry(s1, l, x) == Ok::<FatEntry, ErrorView>(FatEntry::Free));
    lemma_allocate_first(s1, l, size);
    lemma_free_is_apart(s1, l, size, d1, x as usize);
    assert forall|k: int| 0 <= k < d1.len() implies fat_entry(s2, l, (#[trigger] d1[k]) as int)
        == fat_entry(s1, l, d1[k] as int) by {
        assert(d1[k] != x as usize);
    }
    lemma_chain_kept(s1, s2, l, size, d1);
    // its entry
    let len = data.len() as usize;
    let entry = DirEntryView::File {
        name: stored_stem(path)->Ok_0,
        ext: stored_ext(path)->Ok_0,
        start: x as usize,
        size: len,
    };
    assert(put_named(s2, l, path, d0, i, false, x as usize, len) == put_dire(s2, l, d0, i, entry));
    lemma_chain_walk(s2, l, size, d1, i as int / 16);
    assert(0 <= cluster_lba(l, d1[i as int / 16] as int) < s2.len());
    assert(put_dire(s2, l, d0, i, entry).result is Ok);
    lemma_put_dire(s2, l, size, d1, i, entry);
    let s3 = put_dire(s2, l, d0, i, entry).sectors;
    assert(free_from(s3, l, x + 1, top));
    // its contents
    lemma_write_succeeds(s3, l, size, x as usize, data, 0, x + 1, top);
    assert(store_file(s, l, size, path, data) == write_chain(s3, l, size, x as usize, data, 0));
}

/// Room for the first entry of the root directory of a formatted volume is
/// made in its entry 0, whose end is then the entry 1, and leaves the table
/// as it is.
#[verifier::rlimit(50)]
pub proof fn lemma_first_room(s: Seq<Seq<u8>>, dsize: usize)
    requires
        sectors_wf(s),
        s.len() == dsize,
        36 <= dsize <= 0x0FFF_FFEF,
        s[33 + 2 * fat_sectors(dsize as int)][0] == END_MARK,
        33 + 2 * fat_sectors(dsize as int) <= free_top(dsize as int),
    ensures
        ({
            let f = formatted(s, dsize);
            let l = layout_of(f[0]);
            let room = make_room(f, l, dsize as nat, ROOT_CLUSTER, 0, hop_limit(dsize as nat));
            &&& room.result == Ok::<usize, ErrorView>(0)
            &&& free_from(room.sectors, l, 33 + 2 * fat_sectors(dsize as int), free_top(dsize as int))
            &&& dire_at(room.sectors, l, ROOT_CLUSTER, 1) == Ok::<DirEntryView, ErrorView>(
                DirEntryView::End,
            )
        }),
{
    let f = formatted(s, dsize);
    let l = layout_of(f[0]);
    let size = dsize as nat;
    let fuel = hop_limit(size);
    lemma_formatted_volume(s, dsize, Seq::empty(), Seq::empty());
    lemma_format_then_mount(s, dsize);
    lemma_formatted_free(s, dsize);
    let root = seq![ROOT_CLUSTER];
    assert(root[0] == ROOT_CLUSTER);
    let lba = cluster_lba(l, ROOT_CLUSTER as int);
    assert(f[lba] == s[lba]);
    lemma_room_first_succeeds(f, l, size, ROOT_CLUSTER, fuel);
    let s0 = put_dire(f, l, ROOT_CLUSTER, 0, DirEntryView::Free).sectors;
    lemma_put_dire(f, l, size, root, 0, DirEntryView::Free);
    lemma_put_dire(s0, l, size, root, 1, DirEntryView::End);
    lemma_entry_round_trip(slot(s0[lba], 1), DirEntryView::End);
}

/// The path of a name in the root directory that has no `.` and is ASCII
/// lies in the root directory, and is stored under the name, with no
/// extension.
pub proof fn lemma_plain_in_root(n: Seq<u8>)
    requires
        is_name(n),
        is_ascii(n),
        forall|i: int| 0 <= i < n.len() ==> n[i] != DOT,
    ensures
        in_root(seq![SEP] + n),
        stored_stem(seq![SEP] + n) == Ok::<Seq<u8>, ErrorView>(n),
        stored_ext(seq![SEP] + n) == Ok::<Seq<u8>, ErrorView>(Seq::empty()),
{
    lemma_rooted_name(n);
    lemma_plain_name(n, n.len() as int);
}

/// The path of a name in the root directory that is made of a stem, a `.`
/// and an extension without a `.`, and is ASCII, lies in the root
/// directory, and is stored under that stem and that extension.
pub proof fn lemma_dotted_in_root(stem: Seq<u8>, ext: Seq<u8>)
    requires
        stem.len() > 0,
        is_name(stem + seq![DOT] + ext),
        is_ascii(stem),
        is_ascii(ext),
        forall|i: int| 0 <= i < ext.len() ==> ext[i] != DOT,
    ensures
        in_root(seq![SEP] + (stem + seq![DOT] + ext)),
        stored_stem(seq![SEP] + (stem + seq![DOT] + ext)) == Ok::<Seq<u8>, ErrorView>(stem),
        stored_ext(seq![SEP] + (stem + seq![DOT] + ext)) == Ok::<Seq<u8>, ErrorView>(ext),
{
    let n = stem + seq![DOT] + ext;
    if stem.len() == 1 && stem[0] == DOT && ext.len() == 0 {
        assert(n.len() == 2 && n[0] == DOT && n[1] == DOT);
    }
    lemma_rooted_name(n);
    lemma_dotted_name(stem, ext);
}

/// The first directory that is made on a formatted volume is made, and is
/// the only entry of the root directory: the making succeeds, the entry 0
/// holds its name and the first free cluster, the entry 1 ends the root
/// directory, its path leads to that cluster, and it is empty.
///
/// This holds on a device as that of `lemma_formatted_volume` with a free
/// cluster, of a path in the root directory whose stem and extension are
/// no longer than 8 and 3 bytes, do not end in a space, and do not start
/// with a zero byte.
#[verifier::rlimit(50)]
pub proof fn lemma_first_dir(s: Seq<Seq<u8>>, dsize: usize, path: Seq<u8>)
    requires
        sectors_wf(s),
        s.len() == dsize,
        36 <= dsize <= 0x0FFF_FFEF,
        s[33 + 2 * fat_sectors(dsize as int)][0] == END_MARK,
        in_root(path),
        stored_stem(path) matches Ok(name) && 0 < name.len() <= 8 && name[0] != 0 && name.last()
            != SPACE,
        stored_ext(path) matches Ok(ext) && ext.len() <= 3 && (ext.len() > 0 ==> ext.last()
            != SPACE),
        33 + 2 * fat_sectors(dsize as int) < free_top(dsize as int),
    ensures
        ({
            let f = formatted(s, dsize);
            let l = layout_of(f[0]);
            let done = create_dir(f, l, dsize as nat, path);
            let c = (33 + 2 * fat_sectors(dsize as int)) as usize;
            &&& done.result is Ok
            &&& directory(done.sectors, l, dsize as nat, path) == Ok::<usize, ErrorView>(c)
            &&& dire_at(done.sectors, l, ROOT_CLUSTER, 0) == Ok::<DirEntryView, ErrorView>(
                DirEntryView::Dir {
                    name: stored_stem(path)->Ok_0,
                    ext: stored_ext(path)->Ok_0,
                    start: c,
                },
            )
            &&& dire_at(done.sectors, l, ROOT_CLUSTER, 1) == Ok::<DirEntryView, ErrorView>(
                DirEntryView::End,
            )
            &&& dire_at(done.sectors, l, c, 0) == Ok::<DirEntryView, ErrorView>(DirEntryView::End)
        }),
{
    let f = formatted(s, dsize);
    let l = layout_of(f[0]);
    let size = dsize as nat;
    let x = 33 + 2 * fat_sectors(dsize as int);
    lemma_formatted_volume(s, dsize, lookup_stem(path), lookup_ext(path));
    lemma_format_then_mount(s, dsize);
    lemma_formatted_free(s, dsize);
    lemma_parent_in_root(f, l, size, path);
    let root = seq![ROOT_CLUSTER];
    assert(root[0] == ROOT_CLUSTER);
    // the cluster of the directory
    lemma_allocate_succeeds(f, l, size, None, x, free_top(dsize as int));
    let c = x as usize;
    let a = allocate(f, l, size, None).sectors;
    assert(0 <= cluster_lba(l, c as int) < a.len());
    assert(put_dire(a, l, c, 0, DirEntryView::End).result is Ok);
    lemma_dir_prepared(f, l, size, root);
    let b = put_dire(a, l, c, 0, DirEntryView::End).sectors;
    // its entry
    let lba = cluster_lba(l, ROOT_CLUSTER as int);
    assert(f[lba] == s[lba]);
    assert(b[lba] == f[lba]) by {
        assert(cluster_lba(l, root[0] as int) == lba);
    }
    assert(slot(b[lba], 0)[0] == END_MARK);
    lemma_room_first_succeeds(b, l, size, ROOT_CLUSTER, hop_limit(size));
    let room = make_room(b, l, size, ROOT_CLUSTER, 0, hop_limit(size));
    let entry = DirEntryView::Dir {
        name: stored_stem(path)->Ok_0,
        ext: stored_ext(path)->Ok_0,
        start: c,
    };
    assert(put_named(room.sectors, l, path, ROOT_CLUSTER, 0, true, c, 0) == put_dire(
        room.sectors,
        l,
        ROOT_CLUSTER,
        0,
        entry,
    ));
    assert(0 <= lba < room.sectors.len());
    assert(put_dire(room.sectors, l, ROOT_CLUSTER, 0, entry).result is Ok);
    assert(create_dir(f, l, size, path).result is Ok);
    lemma_new_dir_in_root(f, l, size, path, root);
    // the end of the root directory
    let b0 = put_dire(b, l, ROOT_CLUSTER, 0, DirEntryView::Free).sectors;
    lemma_put_dire(b, l, size, root, 0, DirEntryView::Free);
    lemma_put_dire(b0, l, size, root, 1, DirEntryView::End);
    lemma_entry_round_trip(slot(b0[lba], 1), DirEntryView::End);
    lemma_put_dire_others(room.sectors, l, size, root, 0, entry, 1);
}

/// The first file that is written on a formatted volume is stored, and is
/// the only entry of the root directory: the writing succeeds, the entry 0
/// holds the name of the file, cut to 8 and 3 bytes, its size, and the
/// first free cluster as its first cluster, and the entry 1 ends the
/// directory.
///
/// This holds on a device as that of `lemma_formatted_volume`, of a path in
/// the root directory whose stem is ASCII, is not empty and does not start
/// with a zero byte, and whose extension is ASCII, and of contents of less
/// than 2^32 bytes that take up no more clusters than are free.
#[verifier::rlimit(50)]
pub proof fn lemma_first_file(s: Seq<Seq<u8>>, dsize: usize, path: Seq<u8>, data: Seq<u8>)
    requires
        sectors_wf(s),
        s.len() == dsize,
        36 <= dsize <= 0x0FFF_FFEF,
        s[33 + 2 * fat_sectors(dsize as int)][0] == END_MARK,
        in_root(path),
        stored_stem(path) matches Ok(name) && name.len() > 0 && name[0] != 0,
        stored_ext(path) is Ok,
        data.len() <= u32::MAX,
        33 + 2 * fat_sectors(dsize as int) + clusters_of(data.len() as int) <= free_top(
            dsize as int,
        ),
    ensures
        ({
            let f = formatted(s, dsize);
            let l = layout_of(f[0]);
            let done = store_file(f, l, dsize as nat, path, data);
            &&& done.result is Ok
            &&& dire_at(done.sectors, l, ROOT_CLUSTER, 0) == Ok::<DirEntryView, ErrorView>(
                DirEntryView::File {
                    name: stripped(padded(stored_stem(path)->Ok_0, 8)),
                    ext: stripped(padded(stored_ext(path)->Ok_0, 3)),
                    start: (33 + 2 * fat_sectors(dsize as int)) as usize,
                    size: data.len() as usize,
                },
            )
            &&& dire_at(done.sectors, l, ROOT_CLUSTER, 1) == Ok::<DirEntryView, ErrorView>(
                DirEntryView::End,
            )
        }),
{
    let f = formatted(s, dsize);
    let l = layout_of(f[0]);
    let size = dsize as nat;
    lemma_formatted_volume(s, dsize, lookup_stem(path), lookup_ext(path));
    lemma_format_then_mount(s, dsize);
    lemma_formatted_free(s, dsize);
    lemma_parent_in_root(f, l, size, path);
    lemma_first_room(s, dsize);
    let root = seq![ROOT_CLUSTER];
    assert(root[0] == ROOT_CLUSTER);
    lemma_new_file_succeeds(
        f,
        l,
        size,
        path,
        data,
        root,
        33 + 2 * fat_sectors(dsize as int),
        free_top(dsize as int),
    );
    let _ = lemma_new_file(f, l, size, path, data, root);
    lemma_new_file_others(f, l, size, path, data, root, 1);
}

} // verus!
