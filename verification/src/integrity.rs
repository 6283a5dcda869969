//! What the operations of the engine keep intact: the entries of the table
//! that an operation does not name, and the chains that they form.

use crate::byteorder::{le_u32, lemma_u16_round_trip, lemma_u32_round_trip, low32, overlay};
use crate::byteorder::{u16_le_bytes, u32_le_bytes};
use crate::disk::{ErrorView, lemma_written, read_outcome, sectors_wf, written};
use crate::fat::{allocate, chain_end, classify, close_chain, cluster_lba, cluster_limit};
use crate::fat::{decode_dire, dire_at, DirEntryView, encode_dire, END_MARK, entry_bytes, fat_code};
use crate::fat::{fat_entry, fat_lba, fat_offset, fat_sectors, fat_writable, FatEntry, find_entry};
use crate::fat::{find_free, formatted, FREE_MARK, has_name, hop, hop_limit, is_ascii, IS_SUBDIR};
use crate::fat::{Layout, layout_of, lemma_fat_sectors, lemma_first_fat_sector};
use crate::fat::{lemma_format_then_mount, low28, make_room, MAX_HOPS, next_of, padded, push_end};
use crate::fat::{put_cluster, put_dire, put_named, Room, ROOT_CLUSTER, Scan, scan_names, scan_room};
use crate::fat::{scan_start, set_fat, slot, SPACE, stored_ext, stored_start, stored_stem, stripped};
use crate::fat::{stripped_len, with_fat_entry, write_chain};
use crate::sector::{zero_padded, zero_sector};
use vstd::prelude::*;

verus! {

/// What holds of the layout of a volume whose table is large enough, on a
/// device of `size` declared sectors: the table lies before the clusters;
/// the entry of every cluster on the device lies before the clusters too;
/// and the number of every cluster on the device fits an entry that
/// continues a chain.
pub open spec fn sane(l: Layout, size: nat) -> bool {
    &&& 1 <= l.fat_begin <= l.cluster_begin
    &&& l.cluster_begin <= size
    &&& size <= 0x0FFF_FFEF
    &&& cluster_limit(l, size) <= 128 * (l.cluster_begin - l.fat_begin)
}

/// The layout of a formatted volume on at least 36 sectors is sane.
pub proof fn lemma_formatted_sane(dsize: nat)
    requires
        36 <= dsize <= 0x0FFF_FFEF,
    ensures
        sane(
            Layout {
                fat_begin: 33,
                cluster_begin: (33 + 2 * fat_sectors(dsize as int)) as usize,
            },
            dsize,
        ),
{
    lemma_fat_sectors(dsize as int);
}

/// Writing a sector of a cluster leaves the entries of the table for the
/// clusters on the device as they are.
pub proof fn lemma_cluster_write_keeps_table(
    s: Seq<Seq<u8>>,
    l: Layout,
    size: nat,
    lba: int,
    data: Seq<u8>,
    c: int,
)
    requires
        sane(l, size),
        lba >= l.cluster_begin,
        0 <= c < cluster_limit(l, size),
    ensures
        fat_entry(written(s, lba, data), l, c) == fat_entry(s, l, c),
        fat_lba(l, c) < l.cluster_begin,
{
    reveal(fat_entry);
}

/// Setting the entry of one cluster changes what the table says of that
/// cluster, and of no other.
pub proof fn lemma_set_entry(s: Seq<Seq<u8>>, l: Layout, c: int, e: FatEntry, other: int)
    requires
        sectors_wf(s),
        0 <= c,
        0 <= other,
        fat_writable(s, l, c) is Ok,
    ensures
        sectors_wf(with_fat_entry(s, l, c, e)),
        with_fat_entry(s, l, c, e).len() == s.len(),
        fat_entry(with_fat_entry(s, l, c, e), l, c) == Ok::<FatEntry, ErrorView>(
            classify(low28(fat_code(e) as int)),
        ),
        other != c ==> fat_entry(with_fat_entry(s, l, c, e), l, other) == fat_entry(s, l, other),
        forall|lba: int|
            0 <= lba < s.len() && lba != fat_lba(l, c) ==> #[trigger] with_fat_entry(s, l, c, e)[lba]
                == s[lba],
{
    reveal(fat_entry);
    let t = with_fat_entry(s, l, c, e);
    let at = fat_lba(l, c);
    let off = fat_offset(c);
    let bytes = u32_le_bytes(fat_code(e));
    assert(t[at] == overlay(s[at], off, bytes));
    assert(t[at].subrange(off, off + 4) =~= bytes);
    lemma_u32_round_trip(fat_code(e));
    if other != c && fat_lba(l, other) == at {
        let o = fat_offset(other);
        assert(o != off);
        assert(t[at].subrange(o, o + 4) =~= s[at].subrange(o, o + 4));
    }
}

/// The entry that ends a chain reads back as the end of a chain, and an
/// entry that continues a chain in a cluster on a sane device reads back as
/// that.
pub proof fn lemma_codes(n: usize)
    ensures
        classify(low28(fat_code(FatEntry::End) as int)) == FatEntry::End,
        2 <= n <= 0x0FFF_FFEF ==> classify(low28(fat_code(FatEntry::Cont(low32(n))) as int))
            == FatEntry::Cont(n as u32),
{
}

/// The search for a free cluster ends on a cluster in its range whose entry
/// is free.
pub proof fn lemma_find_free(s: Seq<Seq<u8>>, l: Layout, from: int, limit: int)
    requires
        find_free(s, l, from, limit) is Ok,
    ensures
        from <= find_free(s, l, from, limit)->Ok_0 < limit,
        fat_entry(s, l, find_free(s, l, from, limit)->Ok_0) == Ok::<FatEntry, ErrorView>(
            FatEntry::Free,
        ),
    decreases limit - from,
{
    if from < limit {
        match fat_entry(s, l, from) {
            Ok(FatEntry::Free) => {},
            Ok(_) => {
                lemma_find_free(s, l, from + 1, limit);
            },
            Err(_) => {},
        }
    }
}

/// The first free cluster on a sane volume, once its sector is filled
/// with zeros: the table is as it was, and of the sectors of the clusters
/// only that of the free cluster has changed.
pub proof fn lemma_zeroed(s: Seq<Seq<u8>>, l: Layout, size: nat)
    requires
        sectors_wf(s),
        sane(l, size),
        find_free(s, l, scan_start(l), cluster_limit(l, size)) is Ok,
        put_cluster(
            s,
            l,
            find_free(s, l, scan_start(l), cluster_limit(l, size))->Ok_0,
            zero_sector(),
        ).result is Ok,
    ensures
        ({
            let n = find_free(s, l, scan_start(l), cluster_limit(l, size))->Ok_0;
            let z = put_cluster(s, l, n, zero_sector()).sectors;
            &&& 2 <= n < cluster_limit(l, size)
            &&& n <= 0x0FFF_FFEF
            &&& fat_entry(s, l, n) == Ok::<FatEntry, ErrorView>(FatEntry::Free)
            &&& l.cluster_begin <= cluster_lba(l, n) < s.len()
            &&& fat_lba(l, n) < l.cluster_begin
            &&& fat_writable(z, l, n) is Ok
            &&& z == s.update(cluster_lba(l, n), zero_sector())
            &&& sectors_wf(z)
            &&& forall|c: int|
                0 <= c < cluster_limit(l, size) ==> #[trigger] fat_entry(z, l, c) == fat_entry(s, l, c)
        }),
{
    let limit = cluster_limit(l, size);
    lemma_find_free(s, l, scan_start(l), limit);
    let n = find_free(s, l, scan_start(l), limit)->Ok_0;
    let z = put_cluster(s, l, n, zero_sector()).sectors;
    assert(zero_padded(zero_sector()) =~= zero_sector());
    assert(z =~= s.update(cluster_lba(l, n), zero_sector()));
    assert forall|c: int| 0 <= c < limit implies #[trigger] fat_entry(z, l, c) == fat_entry(
        s,
        l,
        c,
    ) by {
        lemma_cluster_write_keeps_table(s, l, size, cluster_lba(l, n), zero_sector(), c);
    }
    lemma_cluster_write_keeps_table(s, l, size, cluster_lba(l, n), zero_sector(), n);
}

/// What holds of the sectors `t` that an allocation left of the sectors
/// `s`, with `new` as the cluster it gave: the new cluster was free and now
/// ends a chain; the table says of every cluster on the device but the new
/// one, and the one that `grown` names, what it said before; and of the
/// sectors of the clusters only that of the new cluster, which is zero, has
/// changed.
pub open spec fn allocated(
    s: Seq<Seq<u8>>,
    t: Seq<Seq<u8>>,
    l: Layout,
    size: nat,
    new: int,
    grown: int,
) -> bool {
    &&& sectors_wf(t)
    &&& t.len() == s.len()
    &&& 2 <= new < cluster_limit(l, size)
    &&& l.cluster_begin <= cluster_lba(l, new) < s.len()
    &&& fat_entry(s, l, new) == Ok::<FatEntry, ErrorView>(FatEntry::Free)
    &&& fat_entry(t, l, new) == Ok::<FatEntry, ErrorView>(FatEntry::End)
    &&& forall|c: int|
        0 <= c < cluster_limit(l, size) && c != new && c != grown ==> #[trigger] fat_entry(t, l, c)
            == fat_entry(s, l, c)
    &&& t[cluster_lba(l, new)] == zero_sector()
    &&& forall|lba: int|
        l.cluster_begin <= lba < s.len() && lba != cluster_lba(l, new) ==> #[trigger] t[lba]
            == s[lba]
}

/// What the allocation of the first cluster of a chain does on a sane
/// volume, where it succeeds.
pub proof fn lemma_allocate_first(s: Seq<Seq<u8>>, l: Layout, size: nat)
    requires
        sectors_wf(s),
        sane(l, size),
        allocate(s, l, size, None).result is Ok,
    ensures
        allocated(
            s,
            allocate(s, l, size, None).sectors,
            l,
            size,
            allocate(s, l, size, None).result->Ok_0 as int,
            -1,
        ),
{
    let limit = cluster_limit(l, size);
    let n = find_free(s, l, scan_start(l), limit)->Ok_0;
    lemma_zeroed(s, l, size);
    let z = put_cluster(s, l, n, zero_sector()).sectors;
    let t = close_chain(z, l, n).sectors;
    assert(allocate(s, l, size, None) == close_chain(z, l, n));
    lemma_codes(n as usize);
    lemma_set_entry(z, l, n, FatEntry::End, n);
    assert forall|c: int| 0 <= c < limit && c != n implies #[trigger] fat_entry(t, l, c)
        == fat_entry(s, l, c) by {
        lemma_set_entry(z, l, n, FatEntry::End, c);
    }
}

/// What the allocation that grows the chain of a cluster that ended it
/// does on a sane volume, where it succeeds: that cluster then continues in
/// the new one.
pub proof fn lemma_allocate_next(s: Seq<Seq<u8>>, l: Layout, size: nat, o: usize)
    requires
        sectors_wf(s),
        sane(l, size),
        allocate(s, l, size, Some(o)).result is Ok,
        o < cluster_limit(l, size),
        fat_entry(s, l, o as int) == Ok::<FatEntry, ErrorView>(FatEntry::End),
    ensures
        allocated(
            s,
            allocate(s, l, size, Some(o)).sectors,
            l,
            size,
            allocate(s, l, size, Some(o)).result->Ok_0 as int,
            o as int,
        ),
        fat_entry(allocate(s, l, size, Some(o)).sectors, l, o as int) == Ok::<FatEntry, ErrorView>(
            FatEntry::Cont(allocate(s, l, size, Some(o)).result->Ok_0 as u32),
        ),
{
    let limit = cluster_limit(l, size);
    let n = find_free(s, l, scan_start(l), limit)->Ok_0;
    lemma_zeroed(s, l, size);
    let z = put_cluster(s, l, n, zero_sector()).sectors;
    assert(fat_entry(z, l, o as int) == fat_entry(s, l, o as int));
    assert(chain_end(z, l, o as int, size) == Ok::<int, ErrorView>(o as int));
    let link = FatEntry::Cont(low32(n as usize));
    let k = set_fat(z, l, o as int, link).sectors;
    assert(fat_lba(l, o as int) < l.cluster_begin) by {
        lemma_cluster_write_keeps_table(s, l, size, cluster_lba(l, n), zero_sector(), o as int);
    }
    assert(fat_writable(z, l, o as int) is Ok);
    lemma_set_entry(z, l, o as int, link, n);
    assert(fat_writable(k, l, n) is Ok);
    assert(allocate(s, l, size, Some(o)) == close_chain(k, l, n));
    let t = close_chain(k, l, n).sectors;
    lemma_codes(n as usize);
    lemma_set_entry(k, l, n, FatEntry::End, o as int);
    assert forall|c: int| 0 <= c < limit && c != n && c != o implies #[trigger] fat_entry(t, l, c)
        == fat_entry(s, l, c) by {
        lemma_set_entry(z, l, o as int, link, c);
        lemma_set_entry(k, l, n, FatEntry::End, c);
    }
}

/// Whether the clusters of `chain` form a chain that ends: each lies on
/// the device and continues in the next, and the last ends the chain.
pub open spec fn is_chain(s: Seq<Seq<u8>>, l: Layout, size: nat, chain: Seq<usize>) -> bool {
    &&& chain.len() > 0
    &&& forall|k: int| 0 <= k < chain.len() ==> 2 <= #[trigger] chain[k] < cluster_limit(l, size)
    &&& forall|k: int|
        0 <= k < chain.len() - 1 ==> fat_entry(s, l, (#[trigger] chain[k]) as int) == Ok::<
            FatEntry,
            ErrorView,
        >(FatEntry::Cont(chain[k + 1] as u32))
    &&& fat_entry(s, l, chain.last() as int) == Ok::<FatEntry, ErrorView>(FatEntry::End)
}

/// A volume that was formatted, on a device as that of
/// `lemma_format_then_mount` with less than 2^28 sectors, is sane, and its
/// root directory is a chain of one cluster that ends, in which no name is
/// found.
#[verifier::rlimit(50)]
pub proof fn lemma_formatted_volume(s: Seq<Seq<u8>>, dsize: usize, stem: Seq<u8>, ext: Seq<u8>)
    requires
        sectors_wf(s),
        s.len() == dsize,
        36 <= dsize <= 0x0FFF_FFEF,
        s[33 + 2 * fat_sectors(dsize as int)][0] == END_MARK,
    ensures
        sectors_wf(formatted(s, dsize)),
        sane(layout_of(formatted(s, dsize)[0]), dsize as nat),
        is_chain(
            formatted(s, dsize),
            layout_of(formatted(s, dsize)[0]),
            dsize as nat,
            seq![ROOT_CLUSTER],
        ),
        find_entry(
            formatted(s, dsize),
            layout_of(formatted(s, dsize)[0]),
            ROOT_CLUSTER,
            stem,
            ext,
            0,
            hop_limit(dsize as nat),
        ) == Ok::<Option<usize>, ErrorView>(None),
{
    lemma_format_then_mount(s, dsize);
    lemma_formatted_sane(dsize as nat);
    lemma_fat_sectors(dsize as int);
    let t = formatted(s, dsize);
    let l = layout_of(t[0]);
    assert(l == Layout {
        fat_begin: 33,
        cluster_begin: (33 + 2 * fat_sectors(dsize as int)) as usize,
    });
    assert(sectors_wf(t)) by {
        crate::fat::lemma_header_layout(dsize, fat_sectors(dsize as int) as usize);
        crate::fat::lemma_first_fat_sector(2);
        assert forall|i: int| 0 <= i < t.len() implies (#[trigger] t[i]).len() == 512 by {}
    }
    let root = t[cluster_lba(l, 2)];
    assert(slot(root, 0)[0] == END_MARK);
    assert(scan_names(root, stem, ext, 0) is End);
}

/// Whether no cluster of `chain` is the cluster `c`.
pub open spec fn apart(chain: Seq<usize>, c: usize) -> bool {
    forall|k: int| 0 <= k < chain.len() ==> #[trigger] chain[k] != c
}

/// Whether no cluster of `a` is a cluster of `b`.
pub open spec fn disjoint(a: Seq<usize>, b: Seq<usize>) -> bool {
    forall|i: int, j: int| 0 <= i < a.len() && 0 <= j < b.len() ==> #[trigger] a[i] != #[trigger] b[j]
}

/// A chain that ends does not hold a cluster that is free.
pub proof fn lemma_free_is_apart(s: Seq<Seq<u8>>, l: Layout, size: nat, chain: Seq<usize>, c: usize)
    requires
        is_chain(s, l, size, chain),
        fat_entry(s, l, c as int) == Ok::<FatEntry, ErrorView>(FatEntry::Free),
    ensures
        apart(chain, c),
{
    assert forall|k: int| 0 <= k < chain.len() implies #[trigger] chain[k] != c by {
        if k < chain.len() - 1 {
            assert(fat_entry(s, l, chain[k] as int) == Ok::<FatEntry, ErrorView>(
                FatEntry::Cont(chain[k + 1] as u32),
            ));
        }
    }
}

/// A chain that ends still does where the table says of each of its
/// clusters what it said.
pub proof fn lemma_chain_kept(
    s: Seq<Seq<u8>>,
    t: Seq<Seq<u8>>,
    l: Layout,
    size: nat,
    chain: Seq<usize>,
)
    requires
        is_chain(s, l, size, chain),
        forall|k: int|
            0 <= k < chain.len() ==> fat_entry(t, l, (#[trigger] chain[k]) as int) == fat_entry(
                s,
                l,
                chain[k] as int,
            ),
    ensures
        is_chain(t, l, size, chain),
{
    assert forall|k: int| 0 <= k < chain.len() - 1 implies fat_entry(
        t,
        l,
        (#[trigger] chain[k]) as int,
    ) == Ok::<FatEntry, ErrorView>(FatEntry::Cont(chain[k + 1] as u32)) by {
        assert(fat_entry(s, l, chain[k] as int) == Ok::<FatEntry, ErrorView>(
            FatEntry::Cont(chain[k + 1] as u32),
        ));
    }
}

/// No cluster occurs twice in a chain that ends.
pub proof fn lemma_chain_distinct(
    s: Seq<Seq<u8>>,
    l: Layout,
    size: nat,
    chain: Seq<usize>,
    a: int,
    b: int,
)
    requires
        sane(l, size),
        is_chain(s, l, size, chain),
        0 <= a < b < chain.len(),
    ensures
        chain[a] != chain[b],
    decreases chain.len() - b,
{
    assert(fat_entry(s, l, chain[a] as int) == Ok::<FatEntry, ErrorView>(
        FatEntry::Cont(chain[a + 1] as u32),
    ));
    if b < chain.len() - 1 {
        assert(fat_entry(s, l, chain[b] as int) == Ok::<FatEntry, ErrorView>(
            FatEntry::Cont(chain[b + 1] as u32),
        ));
        assert(chain[a + 1] <= 0x0FFF_FFEF && chain[b + 1] <= 0x0FFF_FFEF);
        lemma_chain_distinct(s, l, size, chain, a + 1, b + 1);
    }
}

/// One link more leads to the cluster that follows the one reached.
pub proof fn lemma_hop_step(s: Seq<Seq<u8>>, l: Layout, c: usize, hops: nat, m: usize, n: usize)
    requires
        hop(s, l, c, hops) == Ok::<usize, ErrorView>(m),
        next_of(s, l, m as int) == Ok::<Option<usize>, ErrorView>(Some(n)),
    ensures
        hop(s, l, c, hops + 1) == Ok::<usize, ErrorView>(n),
    decreases hops,
{
    reveal_with_fuel(hop, 2);
    if hops > 0 {
        match next_of(s, l, c as int) {
            Ok(Some(x)) => {
                assert(hop(s, l, c, hops) == hop(s, l, x, (hops - 1) as nat));
                lemma_hop_step(s, l, x, (hops - 1) as nat, m, n);
                assert(hop(s, l, c, hops + 1) == hop(s, l, x, hops));
            },
            _ => {},
        }
    }
}

/// Following the chain of `chain` with `next_cluster` leads from each of
/// its clusters to the next, and ends behind the last: the end is reached
/// from the first cluster in as many steps as the chain has links.
pub proof fn lemma_chain_walk(s: Seq<Seq<u8>>, l: Layout, size: nat, chain: Seq<usize>, k: int)
    requires
        sane(l, size),
        is_chain(s, l, size, chain),
        0 <= k < chain.len(),
    ensures
        k < chain.len() - 1 ==> next_of(s, l, chain[k] as int) == Ok::<Option<usize>, ErrorView>(
            Some(chain[k + 1]),
        ),
        k == chain.len() - 1 ==> next_of(s, l, chain[k] as int) == Ok::<Option<usize>, ErrorView>(
            None,
        ),
        hop(s, l, chain[0], k as nat) == Ok::<usize, ErrorView>(chain[k]),
    decreases k,
{
    if k < chain.len() - 1 {
        assert(fat_entry(s, l, chain[k] as int) == Ok::<FatEntry, ErrorView>(
            FatEntry::Cont(chain[k + 1] as u32),
        ));
        assert(chain[k + 1] < cluster_limit(l, size));
        assert(chain[k + 1] <= 0x0FFF_FFEF);
        assert((chain[k + 1] as u32) as usize == chain[k + 1]);
    } else {
        assert(fat_entry(s, l, chain[k] as int) == Ok::<FatEntry, ErrorView>(FatEntry::End));
    }
    if k > 0 {
        lemma_chain_walk(s, l, size, chain, k - 1);
        lemma_hop_step(s, l, chain[0], (k - 1) as nat, chain[k - 1], chain[k]);
    }
}

/// The last cluster of a chain that ends is found from each of its
/// clusters, where the search is given links enough to succeed.
pub proof fn lemma_chain_end(
    s: Seq<Seq<u8>>,
    l: Layout,
    size: nat,
    chain: Seq<usize>,
    k: int,
    fuel: nat,
)
    requires
        sane(l, size),
        is_chain(s, l, size, chain),
        0 <= k < chain.len(),
        chain_end(s, l, chain[k] as int, fuel) is Ok,
    ensures
        chain_end(s, l, chain[k] as int, fuel) == Ok::<int, ErrorView>(chain.last() as int),
    decreases chain.len() - k,
{
    if k < chain.len() - 1 {
        assert(fat_entry(s, l, chain[k] as int) == Ok::<FatEntry, ErrorView>(
            FatEntry::Cont(chain[k + 1] as u32),
        ));
        assert(chain[k + 1] <= 0x0FFF_FFEF);
        lemma_chain_end(s, l, size, chain, k + 1, (fuel - 1) as nat);
    }
}

/// What the allocation that grows a chain that ends does on a sane
/// volume, where it succeeds: the last cluster of the chain then continues
/// in the new one, which ends the chain.
#[verifier::rlimit(50)]
pub proof fn lemma_allocate_grow(s: Seq<Seq<u8>>, l: Layout, size: nat, chain: Seq<usize>, k: int)
    requires
        sectors_wf(s),
        sane(l, size),
        is_chain(s, l, size, chain),
        0 <= k < chain.len(),
        allocate(s, l, size, Some(chain[k])).result is Ok,
    ensures
        allocated(
            s,
            allocate(s, l, size, Some(chain[k])).sectors,
            l,
            size,
            allocate(s, l, size, Some(chain[k])).result->Ok_0 as int,
            chain.last() as int,
        ),
        is_chain(
            allocate(s, l, size, Some(chain[k])).sectors,
            l,
            size,
            chain.push(allocate(s, l, size, Some(chain[k])).result->Ok_0),
        ),
{
    let limit = cluster_limit(l, size);
    let o = chain[k];
    let last = chain.last();
    let n = find_free(s, l, scan_start(l), limit)->Ok_0;
    lemma_zeroed(s, l, size);
    let z = put_cluster(s, l, n, zero_sector()).sectors;
    assert(is_chain(z, l, size, chain));
    lemma_chain_end(z, l, size, chain, k, size);
    let link = FatEntry::Cont(low32(n as usize));
    let j = set_fat(z, l, last as int, link).sectors;
    assert(fat_lba(l, last as int) < l.cluster_begin) by {
        lemma_cluster_write_keeps_table(s, l, size, cluster_lba(l, n), zero_sector(), last as int);
    }
    assert(fat_writable(z, l, last as int) is Ok);
    lemma_set_entry(z, l, last as int, link, n);
    assert(fat_writable(j, l, n) is Ok);
    assert(allocate(s, l, size, Some(o)) == close_chain(j, l, n));
    let t = close_chain(j, l, n).sectors;
    lemma_codes(n as usize);
    lemma_set_entry(j, l, n, FatEntry::End, last as int);
    assert forall|c: int| 0 <= c < limit && c != n && c != last implies #[trigger] fat_entry(
        t,
        l,
        c,
    ) == fat_entry(s, l, c) by {
        lemma_set_entry(z, l, last as int, link, c);
        lemma_set_entry(j, l, n, FatEntry::End, c);
    }
    let longer = chain.push(n as usize);
    assert forall|i: int| 0 <= i < longer.len() - 1 implies fat_entry(
        t,
        l,
        (#[trigger] longer[i]) as int,
    ) == Ok::<FatEntry, ErrorView>(FatEntry::Cont(longer[i + 1] as u32)) by {
        if i < chain.len() - 1 {
            assert(longer[i] == chain[i]);
            assert(longer[i + 1] == chain[i + 1]);
            assert(fat_entry(s, l, chain[i] as int) == Ok::<FatEntry, ErrorView>(
                FatEntry::Cont(chain[i + 1] as u32),
            ));
        }
    }
}

/// The fields of the 32 bytes of a directory or a file.
pub proof fn lemma_entry_fields(name: Seq<u8>, ext: Seq<u8>, attr: u8, start: usize, size: usize)
    ensures
        entry_bytes(name, ext, attr, start, size).len() == 32,
        entry_bytes(name, ext, attr, start, size).subrange(0, 8) == padded(name, 8),
        entry_bytes(name, ext, attr, start, size).subrange(8, 11) == padded(ext, 3),
        entry_bytes(name, ext, attr, start, size)[0] == padded(name, 8)[0],
        entry_bytes(name, ext, attr, start, size)[11] == attr,
        stored_start(entry_bytes(name, ext, attr, start, size)) == low32(start) as usize,
        le_u32(entry_bytes(name, ext, attr, start, size).subrange(28, 32)) == low32(size),
{
    let e = entry_bytes(name, ext, attr, start, size);
    let hi = (low32(start) / 65536) as u16;
    let lo = (low32(start) % 65536) as u16;
    assert(e.subrange(0, 8) =~= padded(name, 8));
    assert(e.subrange(8, 11) =~= padded(ext, 3));
    assert(e.subrange(20, 22) =~= u16_le_bytes(hi));
    assert(e.subrange(26, 28) =~= u16_le_bytes(lo));
    assert(e.subrange(28, 32) =~= u32_le_bytes(low32(size)));
    lemma_u16_round_trip(hi);
    lemma_u16_round_trip(lo);
    lemma_u32_round_trip(low32(size));
}

/// The bytes of an entry read back as the entry: the end of a directory
/// and an entry that is not in use as themselves, and a directory or a
/// file, whose name does not start with a zero byte or with the mark of an
/// entry that is not in use, with its names cut to 8 and 3 bytes and
/// without spaces at their end, and with the low 32 bits of its first
/// cluster and of its size.
pub proof fn lemma_entry_round_trip(old: Seq<u8>, d: DirEntryView)
    requires
        old.len() == 32,
    ensures
        encode_dire(old, d).len() == 32,
        d is End ==> decode_dire(encode_dire(old, d)) == DirEntryView::End,
        d is Free ==> decode_dire(encode_dire(old, d)) == DirEntryView::Free,
        d matches DirEntryView::Dir { name, ext, start } ==> (name.len() > 0 && name[0] != END_MARK
            && name[0] != FREE_MARK ==> decode_dire(encode_dire(old, d)) == DirEntryView::Dir {
            name: stripped(padded(name, 8)),
            ext: stripped(padded(ext, 3)),
            start: low32(start) as usize,
        }),
        d matches DirEntryView::File { name, ext, start, size } ==> (name.len() > 0 && name[0]
            != END_MARK && name[0] != FREE_MARK ==> decode_dire(encode_dire(old, d))
            == DirEntryView::File {
            name: stripped(padded(name, 8)),
            ext: stripped(padded(ext, 3)),
            start: low32(start) as usize,
            size: low32(size) as usize,
        }),
{
    match d {
        DirEntryView::End => {},
        DirEntryView::Free => {},
        DirEntryView::Dir { name, ext, start } => {
            lemma_entry_fields(name, ext, IS_SUBDIR, start, 0);
            assert(IS_SUBDIR & IS_SUBDIR != 0) by (bit_vector);
        },
        DirEntryView::File { name, ext, start, size } => {
            lemma_entry_fields(name, ext, 0, start, size);
            assert(0u8 & IS_SUBDIR == 0) by (bit_vector);
        },
    }
}

/// The spaces that fill up a field are what is dropped from its end.
pub proof fn lemma_stripped_len(name: Seq<u8>, n: nat, m: int)
    requires
        name.len() <= m <= n,
        name.len() > 0 ==> name.last() != SPACE,
    ensures
        stripped_len(padded(name, n), m) == name.len(),
    decreases m,
{
    if m > name.len() {
        lemma_stripped_len(name, n, m - 1);
    }
}

/// A name of no more bytes than its field, which does not end in a space,
/// is read back from the field as it is.
pub proof fn lemma_field_round_trip(name: Seq<u8>, n: nat)
    requires
        name.len() <= n,
        name.len() > 0 ==> name.last() != SPACE,
    ensures
        stripped(padded(name, n)) == name,
{
    lemma_stripped_len(name, n, n as int);
    assert(stripped(padded(name, n)) =~= name);
}

/// Storing an entry in a directory whose chain ends, on a sane volume,
/// where it succeeds: the sector of the cluster that the entry lies in is
/// the only one that changes, the table stays as it is, and the entry reads
/// back as what its bytes say.
#[verifier::rlimit(50)]
pub proof fn lemma_put_dire(
    s: Seq<Seq<u8>>,
    l: Layout,
    size: nat,
    chain: Seq<usize>,
    i: usize,
    d: DirEntryView,
)
    requires
        sectors_wf(s),
        sane(l, size),
        is_chain(s, l, size, chain),
        i / 16 < chain.len(),
        put_dire(s, l, chain[0], i, d).result is Ok,
    ensures
        ({
            let t = put_dire(s, l, chain[0], i, d).sectors;
            let lba = cluster_lba(l, chain[i as int / 16] as int);
            &&& sectors_wf(t)
            &&& t.len() == s.len()
            &&& l.cluster_begin <= lba < s.len()
            &&& t == s.update(
                lba,
                overlay(s[lba], 32 * (i as int % 16), encode_dire(slot(s[lba], i as int % 16), d)),
            )
            &&& forall|c: int|
                0 <= c < cluster_limit(l, size) ==> #[trigger] fat_entry(t, l, c) == fat_entry(s, l, c)
            &&& is_chain(t, l, size, chain)
            &&& dire_at(t, l, chain[0], i) == Ok::<DirEntryView, ErrorView>(
                decode_dire(encode_dire(slot(s[lba], i as int % 16), d)),
            )
        }),
{
    let k = i as int / 16;
    let j = i as int % 16;
    lemma_chain_walk(s, l, size, chain, k);
    let cd = chain[k];
    let lba = cluster_lba(l, cd as int);
    let t = put_dire(s, l, chain[0], i, d).sectors;
    let old = slot(s[lba], j);
    lemma_entry_round_trip(old, d);
    let sector = overlay(s[lba], 32 * j, encode_dire(old, d));
    assert(t == s.update(lba, sector));
    assert(zero_padded(sector) =~= sector);
    assert(t == written(s, lba, sector));
    assert forall|c: int| 0 <= c < cluster_limit(l, size) implies #[trigger] fat_entry(t, l, c)
        == fat_entry(s, l, c) by {
        lemma_cluster_write_keeps_table(s, l, size, lba, sector, c);
    }
    assert(is_chain(t, l, size, chain));
    lemma_chain_walk(t, l, size, chain, k);
    assert(slot(t[lba], j) =~= encode_dire(old, d));
}

/// The entry of a file, stored in a directory whose chain ends, on a sane
/// volume, reads back with the first cluster and the size of the file,
/// where its name does not start with a zero byte and both fit 32 bits.
pub proof fn lemma_put_file_entry(
    s: Seq<Seq<u8>>,
    l: Layout,
    size: nat,
    path: Seq<u8>,
    dir: Seq<usize>,
    i: usize,
    start: usize,
    len: usize,
)
    requires
        sectors_wf(s),
        sane(l, size),
        is_chain(s, l, size, dir),
        i / 16 < dir.len(),
        start <= u32::MAX,
        len <= u32::MAX,
        stored_stem(path) matches Ok(name) ==> name.len() > 0 && name[0] != 0,
        put_named(s, l, path, dir[0], i, false, start, len).result is Ok,
    ensures
        ({
            let t = put_named(s, l, path, dir[0], i, false, start, len).sectors;
            &&& sectors_wf(t)
            &&& t.len() == s.len()
            &&& cluster_lba(l, dir[i as int / 16] as int) < s.len()
            &&& forall|c: int|
                0 <= c < cluster_limit(l, size) ==> #[trigger] fat_entry(t, l, c) == fat_entry(s, l, c)
            &&& is_chain(t, l, size, dir)
            &&& dire_at(t, l, dir[0], i) == Ok::<DirEntryView, ErrorView>(
                DirEntryView::File {
                    name: stripped(padded(stored_stem(path)->Ok_0, 8)),
                    ext: stripped(padded(stored_ext(path)->Ok_0, 3)),
                    start: start,
                    size: len,
                },
            )
        }),
{
    let name = stored_stem(path)->Ok_0;
    let ext = stored_ext(path)->Ok_0;
    let entry = DirEntryView::File { name: name, ext: ext, start: start, size: len };
    assert(put_named(s, l, path, dir[0], i, false, start, len) == put_dire(s, l, dir[0], i, entry));
    lemma_put_dire(s, l, size, dir, i, entry);
    let lba = cluster_lba(l, dir[i as int / 16] as int);
    lemma_entry_round_trip(slot(s[lba], i as int % 16), entry);
    assert(is_ascii(name));
    assert(name[0] != FREE_MARK);
    assert(low32(start) == start);
    assert(low32(len) == len);
}

/// Whether the entries of `sector` from `i` on and before `j` are all in
/// use.
pub open spec fn unmarked(sector: Seq<u8>, i: int, j: int) -> bool {
    forall|k: int| i <= k < j ==> (#[trigger] slot(sector, k))[0] != END_MARK && slot(sector, k)[0]
        != FREE_MARK
}

/// Looking for room in a sector ends on one of its 16 entries, if it ends
/// on any, and passes only entries that are in use.
pub proof fn lemma_scan_room(sector: Seq<u8>, i: int)
    requires
        0 <= i <= 16,
    ensures
        scan_room(sector, i) matches Room::Free(j) ==> i <= j < 16 && slot(sector, j)[0]
            == FREE_MARK,
        scan_room(sector, i) matches Room::End(j) ==> i <= j < 16 && slot(sector, j)[0]
            == END_MARK,
        scan_room(sector, i) matches Room::Free(j) ==> unmarked(sector, i, j),
        scan_room(sector, i) matches Room::End(j) ==> unmarked(sector, i, j),
        scan_room(sector, i) is Full ==> unmarked(sector, i, 16),
    decreases 16 - i,
{
    if i < 16 && slot(sector, i)[0] != FREE_MARK && slot(sector, i)[0] != END_MARK {
        lemma_scan_room(sector, i + 1);
    }
}

/// Moving the end of a directory whose chain ends, on a sane volume,
/// leaves a chain that ends: the one before, grown by a cluster where the
/// end was moved into a new cluster.
#[verifier::rlimit(50)]
pub proof fn lemma_push_end(
    s: Seq<Seq<u8>>,
    l: Layout,
    size: nat,
    chain: Seq<usize>,
    k: int,
    j: usize,
) -> (r: Seq<usize>)
    requires
        sectors_wf(s),
        sane(l, size),
        is_chain(s, l, size, chain),
        0 <= k < chain.len(),
        j < 16,
        push_end(s, l, size, chain[k], j).result is Ok,
    ensures
        sectors_wf(push_end(s, l, size, chain[k], j).sectors),
        push_end(s, l, size, chain[k], j).sectors.len() == s.len(),
        is_chain(push_end(s, l, size, chain[k], j).sectors, l, size, r),
        r.len() >= chain.len(),
        r.subrange(0, chain.len() as int) == chain,
{
    let tail = chain.subrange(k, chain.len() as int);
    assert(is_chain(s, l, size, tail)) by {
        assert forall|i: int| 0 <= i < tail.len() - 1 implies fat_entry(
            s,
            l,
            (#[trigger] tail[i]) as int,
        ) == Ok::<FatEntry, ErrorView>(FatEntry::Cont(tail[i + 1] as u32)) by {
            assert(tail[i] == chain[k + i]);
            assert(tail[i + 1] == chain[k + i + 1]);
        }
        assert(tail.last() == chain.last());
    }
    let freed = put_dire(s, l, chain[k], j, DirEntryView::Free);
    lemma_put_dire(s, l, size, tail, j, DirEntryView::Free);
    let s1 = freed.sectors;
    assert(is_chain(s1, l, size, chain));
    assert(is_chain(s1, l, size, tail));
    if j < 15 {
        lemma_put_dire(s1, l, size, tail, (j + 1) as usize, DirEntryView::End);
        let s2 = put_dire(s1, l, chain[k], (j + 1) as usize, DirEntryView::End).sectors;
        assert(is_chain(s2, l, size, chain));
        assert(chain.subrange(0, chain.len() as int) =~= chain);
        chain
    } else {
        let grown = allocate(s1, l, size, Some(chain[k]));
        lemma_allocate_grow(s1, l, size, chain, k);
        let new = grown.result->Ok_0;
        let s2 = grown.sectors;
        let longer = chain.push(new);
        let one = seq![new];
        assert(is_chain(s2, l, size, one));
        lemma_put_dire(s2, l, size, one, 0, DirEntryView::End);
        let s3 = put_dire(s2, l, new, 0, DirEntryView::End).sectors;
        assert(is_chain(s3, l, size, longer)) by {
            assert forall|i: int| 0 <= i < longer.len() - 1 implies fat_entry(
                s3,
                l,
                (#[trigger] longer[i]) as int,
            ) == Ok::<FatEntry, ErrorView>(FatEntry::Cont(longer[i + 1] as u32)) by {
                assert(fat_entry(s2, l, longer[i] as int) == Ok::<FatEntry, ErrorView>(
                    FatEntry::Cont(longer[i + 1] as u32),
                ));
            }
        }
        assert(longer.subrange(0, chain.len() as int) =~= chain);
        longer
    }
}

/// Finding room in a directory whose chain ends, on a sane volume, where
/// it succeeds: the entry found lies in a cluster of the chain, and the
/// directory then has a chain that ends, which is the one before, grown by
/// a cluster where the end was moved into a new cluster.
#[verifier::rlimit(50)]
pub proof fn lemma_make_room(
    s: Seq<Seq<u8>>,
    l: Layout,
    size: nat,
    chain: Seq<usize>,
    k: int,
    fuel: nat,
) -> (r: Seq<usize>)
    requires
        sectors_wf(s),
        sane(l, size),
        is_chain(s, l, size, chain),
        0 <= k < chain.len(),
        16 * k + 16 * fuel <= 16 * MAX_HOPS,
        make_room(s, l, size, chain[k], 16 * k, fuel).result is Ok,
    ensures
        sectors_wf(make_room(s, l, size, chain[k], 16 * k, fuel).sectors),
        make_room(s, l, size, chain[k], 16 * k, fuel).sectors.len() == s.len(),
        is_chain(make_room(s, l, size, chain[k], 16 * k, fuel).sectors, l, size, r),
        r.len() >= chain.len(),
        r.subrange(0, chain.len() as int) == chain,
        16 * k <= make_room(s, l, size, chain[k], 16 * k, fuel).result->Ok_0 < 16 * chain.len(),
    decreases fuel,
{
    let cluster = chain[k];
    let sector = read_outcome(s, cluster_lba(l, cluster as int))->Ok_0;
    lemma_scan_room(sector, 0);
    match scan_room(sector, 0) {
        Room::Free(j) => {
            assert(chain.subrange(0, chain.len() as int) =~= chain);
            chain
        },
        Room::End(j) => lemma_push_end(s, l, size, chain, k, j as usize),
        Room::Full => {
            lemma_chain_walk(s, l, size, chain, k);
            assert(k < chain.len() - 1);
            assert(fuel > 0);
            assert(make_room(s, l, size, chain[k], 16 * k, fuel) == make_room(
                s,
                l,
                size,
                chain[k + 1],
                16 * (k + 1),
                (fuel - 1) as nat,
            ));
            lemma_make_room(s, l, size, chain, k + 1, (fuel - 1) as nat)
        },
    }
}

/// What finding room did to the sectors `s` of a directory with the chain
/// `chain`, looked through from its cluster `k` on, where `t` are the
/// sectors after it and `i` is the entry found: every cluster before that of
/// the entry is full and was left as it was; in the cluster of the entry,
/// the entries before it are in use and were left as they were.
pub open spec fn room_made(
    s: Seq<Seq<u8>>,
    t: Seq<Seq<u8>>,
    l: Layout,
    chain: Seq<usize>,
    k: int,
    i: int,
) -> bool {
    &&& k <= i / 16 < chain.len()
    &&& forall|c: int|
        k <= c < i / 16 ==> cluster_lba(l, (#[trigger] chain[c]) as int) < s.len() && unmarked(
            s[cluster_lba(l, chain[c] as int)],
            0,
            16,
        ) && t[cluster_lba(l, chain[c] as int)] == s[cluster_lba(l, chain[c] as int)]
    &&& cluster_lba(l, chain[i / 16] as int) < s.len()
    &&& unmarked(s[cluster_lba(l, chain[i / 16] as int)], 0, i % 16)
    &&& forall|j: int|
        0 <= j < i % 16 ==> #[trigger] slot(t[cluster_lba(l, chain[i / 16] as int)], j) == slot(
            s[cluster_lba(l, chain[i / 16] as int)],
            j,
        )
}

/// A chain that ends does so from each of its clusters on.
pub proof fn lemma_tail_chain(s: Seq<Seq<u8>>, l: Layout, size: nat, chain: Seq<usize>, k: int)
    requires
        is_chain(s, l, size, chain),
        0 <= k < chain.len(),
    ensures
        is_chain(s, l, size, chain.subrange(k, chain.len() as int)),
        chain.subrange(k, chain.len() as int)[0] == chain[k],
{
    let tail = chain.subrange(k, chain.len() as int);
    assert forall|i: int| 0 <= i < tail.len() - 1 implies fat_entry(
        s,
        l,
        (#[trigger] tail[i]) as int,
    ) == Ok::<FatEntry, ErrorView>(FatEntry::Cont(tail[i + 1] as u32)) by {
        assert(tail[i] == chain[k + i]);
        assert(tail[i + 1] == chain[k + i + 1]);
    }
    assert(tail.last() == chain.last());
}

/// Storing an entry leaves the other entries of its sector as they are.
pub proof fn lemma_slot_kept(sector: Seq<u8>, j: int, bytes: Seq<u8>, i: int)
    requires
        sector.len() == 512,
        bytes.len() == 32,
        0 <= i < 16,
        0 <= j < 16,
        i != j,
    ensures
        slot(overlay(sector, 32 * j, bytes), i) == slot(sector, i),
{
    assert(slot(overlay(sector, 32 * j, bytes), i) =~= slot(sector, i));
}

/// Moving the end of a directory from the entry `j` of a cluster leaves the
/// entries before `j` in that cluster as they were.
#[verifier::rlimit(50)]
pub proof fn lemma_push_end_slot(
    s: Seq<Seq<u8>>,
    l: Layout,
    size: nat,
    chain: Seq<usize>,
    k: int,
    j: usize,
    i: int,
)
    requires
        sectors_wf(s),
        sane(l, size),
        is_chain(s, l, size, chain),
        0 <= k < chain.len(),
        0 <= i < j < 16,
        push_end(s, l, size, chain[k], j).result is Ok,
    ensures
        cluster_lba(l, chain[k] as int) < s.len(),
        slot(push_end(s, l, size, chain[k], j).sectors[cluster_lba(l, chain[k] as int)], i) == slot(
            s[cluster_lba(l, chain[k] as int)],
            i,
        ),
{
    let tail = chain.subrange(k, chain.len() as int);
    lemma_tail_chain(s, l, size, chain, k);
    let lba = cluster_lba(l, chain[k] as int);
    lemma_put_dire(s, l, size, tail, j, DirEntryView::Free);
    let s1 = put_dire(s, l, chain[k], j, DirEntryView::Free).sectors;
    lemma_entry_round_trip(slot(s[lba], j as int), DirEntryView::Free);
    lemma_slot_kept(s[lba], j as int, encode_dire(slot(s[lba], j as int), DirEntryView::Free), i);
    assert(slot(s1[lba], i) == slot(s[lba], i));
    if j < 15 {
        lemma_put_dire(s1, l, size, tail, (j + 1) as usize, DirEntryView::End);
        lemma_entry_round_trip(slot(s1[lba], j + 1), DirEntryView::End);
        lemma_slot_kept(
            s1[lba],
            j + 1,
            encode_dire(slot(s1[lba], j + 1), DirEntryView::End),
            i,
        );
    } else {
        lemma_chain_kept(s, s1, l, size, chain);
        let grown = allocate(s1, l, size, Some(chain[k]));
        lemma_allocate_grow(s1, l, size, chain, k);
        let new = grown.result->Ok_0;
        let s2 = grown.sectors;
        lemma_free_is_apart(s1, l, size, chain, new);
        assert(chain[k] != new);
        let one = seq![new];
        assert(is_chain(s2, l, size, one));
        lemma_put_dire(s2, l, size, one, 0, DirEntryView::End);
        assert(s2[lba] == s1[lba]);
    }
}

/// Moving the end of a directory from an entry of the cluster `k` of its
/// chain leaves the sectors of the other clusters of the chain as they
/// were.
#[verifier::rlimit(50)]
pub proof fn lemma_push_end_other(
    s: Seq<Seq<u8>>,
    l: Layout,
    size: nat,
    chain: Seq<usize>,
    k: int,
    j: usize,
    c: int,
)
    requires
        sectors_wf(s),
        sane(l, size),
        is_chain(s, l, size, chain),
        0 <= k < chain.len(),
        0 <= c < chain.len(),
        c != k,
        j < 16,
        cluster_lba(l, chain[c] as int) < s.len(),
        push_end(s, l, size, chain[k], j).result is Ok,
    ensures
        push_end(s, l, size, chain[k], j).sectors[cluster_lba(l, chain[c] as int)] == s[cluster_lba(
            l,
            chain[c] as int,
        )],
{
    let tail = chain.subrange(k, chain.len() as int);
    lemma_tail_chain(s, l, size, chain, k);
    if c < k {
        lemma_chain_distinct(s, l, size, chain, c, k);
    } else {
        lemma_chain_distinct(s, l, size, chain, k, c);
    }
    let lba = cluster_lba(l, chain[c] as int);
    lemma_put_dire(s, l, size, tail, j, DirEntryView::Free);
    let s1 = put_dire(s, l, chain[k], j, DirEntryView::Free).sectors;
    assert(s1[lba] == s[lba]);
    if j < 15 {
        lemma_put_dire(s1, l, size, tail, (j + 1) as usize, DirEntryView::End);
    } else {
        lemma_chain_kept(s, s1, l, size, chain);
        let grown = allocate(s1, l, size, Some(chain[k]));
        lemma_allocate_grow(s1, l, size, chain, k);
        let new = grown.result->Ok_0;
        let s2 = grown.sectors;
        lemma_free_is_apart(s1, l, size, chain, new);
        assert(chain[c] != new);
        let one = seq![new];
        assert(is_chain(s2, l, size, one));
        lemma_put_dire(s2, l, size, one, 0, DirEntryView::End);
        assert(s2[lba] == s1[lba]);
    }
}

/// Finding room from the cluster `k` of a chain on leaves the sectors of
/// the clusters before `k` as they are.
#[verifier::rlimit(50)]
pub proof fn lemma_room_untouched(
    s: Seq<Seq<u8>>,
    l: Layout,
    size: nat,
    chain: Seq<usize>,
    k: int,
    fuel: nat,
    c: int,
)
    requires
        sectors_wf(s),
        sane(l, size),
        is_chain(s, l, size, chain),
        0 <= c < k < chain.len(),
        16 * k + 16 * fuel <= 16 * MAX_HOPS,
        make_room(s, l, size, chain[k], 16 * k, fuel).result is Ok,
        cluster_lba(l, chain[c] as int) < s.len(),
    ensures
        make_room(s, l, size, chain[k], 16 * k, fuel).sectors[cluster_lba(l, chain[c] as int)]
            == s[cluster_lba(l, chain[c] as int)],
    decreases fuel,
{
    let cluster = chain[k];
    let lba = cluster_lba(l, cluster as int);
    let sector = read_outcome(s, lba)->Ok_0;
    lemma_scan_room(sector, 0);
    match scan_room(sector, 0) {
        Room::Free(j) => {},
        Room::End(j) => {
            lemma_push_end_other(s, l, size, chain, k, j as usize, c);
        },
        Room::Full => {
            lemma_chain_walk(s, l, size, chain, k);
            assert(make_room(s, l, size, chain[k], 16 * k, fuel) == make_room(
                s,
                l,
                size,
                chain[k + 1],
                16 * (k + 1),
                (fuel - 1) as nat,
            ));
            lemma_room_untouched(s, l, size, chain, k + 1, (fuel - 1) as nat, c);
        },
    }
}

/// Room that was made from the cluster behind a full cluster on, which was
/// left as it was, is room made from that cluster on.
pub proof fn lemma_room_made_behind(
    s: Seq<Seq<u8>>,
    t: Seq<Seq<u8>>,
    l: Layout,
    chain: Seq<usize>,
    k: int,
    i: int,
)
    requires
        0 <= k,
        room_made(s, t, l, chain, k + 1, i),
        cluster_lba(l, chain[k] as int) < s.len(),
        unmarked(s[cluster_lba(l, chain[k] as int)], 0, 16),
        t[cluster_lba(l, chain[k] as int)] == s[cluster_lba(l, chain[k] as int)],
    ensures
        room_made(s, t, l, chain, k, i),
{
    assert forall|c: int| k <= c < i / 16 implies cluster_lba(l, (#[trigger] chain[c]) as int)
        < s.len() && unmarked(s[cluster_lba(l, chain[c] as int)], 0, 16) && t[cluster_lba(
        l,
        chain[c] as int,
    )] == s[cluster_lba(l, chain[c] as int)] by {
        if c > k {
            assert(k + 1 <= c < i / 16);
        }
    }
}

/// Finding room in a directory whose chain ends, on a sane volume, passes
/// full clusters, which it leaves as they are, and ends in a cluster whose
/// entries before the one found are in use and stay as they are.
#[verifier::rlimit(50)]
pub proof fn lemma_room_made(
    s: Seq<Seq<u8>>,
    l: Layout,
    size: nat,
    chain: Seq<usize>,
    k: int,
    fuel: nat,
)
    requires
        sectors_wf(s),
        sane(l, size),
        is_chain(s, l, size, chain),
        0 <= k < chain.len(),
        16 * k + 16 * fuel <= 16 * MAX_HOPS,
        make_room(s, l, size, chain[k], 16 * k, fuel).result is Ok,
    ensures
        room_made(
            s,
            make_room(s, l, size, chain[k], 16 * k, fuel).sectors,
            l,
            chain,
            k,
            make_room(s, l, size, chain[k], 16 * k, fuel).result->Ok_0 as int,
        ),
    decreases fuel,
{
    let cluster = chain[k];
    let lba = cluster_lba(l, cluster as int);
    let sector = read_outcome(s, lba)->Ok_0;
    lemma_scan_room(sector, 0);
    let t = make_room(s, l, size, chain[k], 16 * k, fuel).sectors;
    let i = make_room(s, l, size, chain[k], 16 * k, fuel).result->Ok_0 as int;
    match scan_room(sector, 0) {
        Room::Free(j) => {
            assert(i == 16 * k + j);
        },
        Room::End(j) => {
            assert(i == 16 * k + j);
            assert forall|x: int| 0 <= x < j implies #[trigger] slot(t[lba], x) == slot(s[lba], x) by {
                lemma_push_end_slot(s, l, size, chain, k, j as usize, x);
            }
        },
        Room::Full => {
            lemma_chain_walk(s, l, size, chain, k);
            assert(make_room(s, l, size, chain[k], 16 * k, fuel) == make_room(
                s,
                l,
                size,
                chain[k + 1],
                16 * (k + 1),
                (fuel - 1) as nat,
            ));
            lemma_room_made(s, l, size, chain, k + 1, (fuel - 1) as nat);
            // the cluster `k` is full, and is not the one of the entry
            lemma_room_untouched(s, l, size, chain, k + 1, (fuel - 1) as nat, k);
            lemma_room_made_behind(s, t, l, chain, k, i);
        },
    }
}

/// Moving the end of a directory whose chain ends leaves a cluster that is
/// in use and is no cluster of that chain as it is.
#[verifier::rlimit(50)]
pub proof fn lemma_push_end_keeps(
    s: Seq<Seq<u8>>,
    l: Layout,
    size: nat,
    chain: Seq<usize>,
    k: int,
    j: usize,
    c: usize,
)
    requires
        sectors_wf(s),
        sane(l, size),
        is_chain(s, l, size, chain),
        0 <= k < chain.len(),
        j < 16,
        push_end(s, l, size, chain[k], j).result is Ok,
        apart(chain, c),
        2 <= c < cluster_limit(l, size),
        cluster_lba(l, c as int) < s.len(),
        fat_entry(s, l, c as int) != Ok::<FatEntry, ErrorView>(FatEntry::Free),
    ensures
        push_end(s, l, size, chain[k], j).sectors[cluster_lba(l, c as int)] == s[cluster_lba(
            l,
            c as int,
        )],
        fat_entry(push_end(s, l, size, chain[k], j).sectors, l, c as int) == fat_entry(
            s,
            l,
            c as int,
        ),
{
    let tail = chain.subrange(k, chain.len() as int);
    assert(is_chain(s, l, size, tail)) by {
        assert forall|i: int| 0 <= i < tail.len() - 1 implies fat_entry(
            s,
            l,
            (#[trigger] tail[i]) as int,
        ) == Ok::<FatEntry, ErrorView>(FatEntry::Cont(tail[i + 1] as u32)) by {
            assert(tail[i] == chain[k + i]);
            assert(tail[i + 1] == chain[k + i + 1]);
        }
        assert(tail.last() == chain.last());
    }
    assert(chain[k] != c);
    assert(chain.last() != c);
    lemma_put_dire(s, l, size, tail, j, DirEntryView::Free);
    let s1 = put_dire(s, l, chain[k], j, DirEntryView::Free).sectors;
    assert(is_chain(s1, l, size, chain));
    assert(is_chain(s1, l, size, tail));
    if j < 15 {
        lemma_put_dire(s1, l, size, tail, (j + 1) as usize, DirEntryView::End);
    } else {
        let grown = allocate(s1, l, size, Some(chain[k]));
        lemma_allocate_grow(s1, l, size, chain, k);
        let new = grown.result->Ok_0;
        let s2 = grown.sectors;
        assert(fat_entry(s1, l, c as int) == fat_entry(s, l, c as int));
        assert(new != c);
        let one = seq![new];
        assert(is_chain(s2, l, size, one));
        lemma_put_dire(s2, l, size, one, 0, DirEntryView::End);
        assert(fat_entry(s2, l, c as int) == fat_entry(s1, l, c as int));
        assert(s2[cluster_lba(l, c as int)] == s1[cluster_lba(l, c as int)]);
    }
}

/// Finding room in a directory whose chain ends leaves a cluster that is
/// in use and is no cluster of that chain as it is: the table says of it
/// what it said, and its sector holds what it held.
#[verifier::rlimit(50)]
pub proof fn lemma_room_keeps(
    s: Seq<Seq<u8>>,
    l: Layout,
    size: nat,
    chain: Seq<usize>,
    k: int,
    fuel: nat,
    c: usize,
)
    requires
        sectors_wf(s),
        sane(l, size),
        is_chain(s, l, size, chain),
        0 <= k < chain.len(),
        16 * k + 16 * fuel <= 16 * MAX_HOPS,
        make_room(s, l, size, chain[k], 16 * k, fuel).result is Ok,
        apart(chain, c),
        2 <= c < cluster_limit(l, size),
        cluster_lba(l, c as int) < s.len(),
        fat_entry(s, l, c as int) != Ok::<FatEntry, ErrorView>(FatEntry::Free),
    ensures
        make_room(s, l, size, chain[k], 16 * k, fuel).sectors[cluster_lba(l, c as int)]
            == s[cluster_lba(l, c as int)],
        fat_entry(make_room(s, l, size, chain[k], 16 * k, fuel).sectors, l, c as int) == fat_entry(
            s,
            l,
            c as int,
        ),
    decreases fuel,
{
    let cluster = chain[k];
    let lba = cluster_lba(l, cluster as int);
    let sector = read_outcome(s, lba)->Ok_0;
    lemma_scan_room(sector, 0);
    match scan_room(sector, 0) {
        Room::Free(j) => {},
        Room::End(j) => {
            lemma_push_end_keeps(s, l, size, chain, k, j as usize, c);
        },
        Room::Full => {
            lemma_chain_walk(s, l, size, chain, k);
            assert(make_room(s, l, size, chain[k], 16 * k, fuel) == make_room(
                s,
                l,
                size,
                chain[k + 1],
                16 * (k + 1),
                (fuel - 1) as nat,
            ));
            lemma_room_keeps(s, l, size, chain, k + 1, (fuel - 1) as nat, c);
        },
    }
}

/// The search for a name in a sector finds it in one of the 16 entries, if
/// it finds it.
pub proof fn lemma_scan_names(sector: Seq<u8>, stem: Seq<u8>, ext: Seq<u8>, i: int)
    requires
        0 <= i <= 16,
    ensures
        scan_names(sector, stem, ext, i) matches Scan::Found(j) ==> i <= j < 16,
    decreases 16 - i,
{
    if i < 16 {
        lemma_scan_names(sector, stem, ext, i + 1);
    }
}

/// A sector in which every entry is in use does not end the search for a
/// name.
pub proof fn lemma_full_never_ends(sector: Seq<u8>, stem: Seq<u8>, ext: Seq<u8>, i: int)
    requires
        0 <= i <= 16,
        unmarked(sector, i, 16),
    ensures
        !(scan_names(sector, stem, ext, i) is End),
    decreases 16 - i,
{
    if i < 16 {
        assert(slot(sector, i)[0] != END_MARK);
        lemma_full_never_ends(sector, stem, ext, i + 1);
    }
}

/// The search for a name finds it in the entry `j` of a sector, where the
/// entries before `j` are in use and are those of a sector in which the
/// name was not found.
pub proof fn lemma_scan_found(
    before: Seq<u8>,
    after: Seq<u8>,
    stem: Seq<u8>,
    ext: Seq<u8>,
    i: int,
    j: int,
)
    requires
        0 <= i <= j < 16,
        unmarked(before, i, j),
        forall|k: int| i <= k < j ==> #[trigger] slot(after, k) == slot(before, k),
        !(scan_names(before, stem, ext, i) is Found),
        slot(after, j)[0] != END_MARK,
        slot(after, j)[0] != FREE_MARK,
        has_name(slot(after, j), stem, ext),
    ensures
        scan_names(after, stem, ext, i) == Scan::Found(j),
    decreases j - i,
{
    if i < j {
        assert(slot(before, i)[0] != END_MARK && slot(before, i)[0] != FREE_MARK);
        assert(slot(after, i) == slot(before, i));
        lemma_scan_found(before, after, stem, ext, i + 1, j);
    }
}

/// The search for a name that is not found passes a full cluster of a
/// chain that ends, and goes on in the next.
pub proof fn lemma_find_passes(
    s: Seq<Seq<u8>>,
    l: Layout,
    size: nat,
    chain: Seq<usize>,
    k: int,
    stem: Seq<u8>,
    ext: Seq<u8>,
    fuel: nat,
)
    requires
        sane(l, size),
        is_chain(s, l, size, chain),
        0 <= k < chain.len(),
        cluster_lba(l, chain[k] as int) < s.len(),
        unmarked(s[cluster_lba(l, chain[k] as int)], 0, 16),
        find_entry(s, l, chain[k], stem, ext, 16 * k, fuel) == Ok::<Option<usize>, ErrorView>(None),
    ensures
        fuel > 0,
        k < chain.len() - 1,
        scan_names(s[cluster_lba(l, chain[k] as int)], stem, ext, 0) is Pass,
        find_entry(s, l, chain[k + 1], stem, ext, 16 * (k + 1), (fuel - 1) as nat) == Ok::<
            Option<usize>,
            ErrorView,
        >(None),
{
    let lba = cluster_lba(l, chain[k] as int);
    lemma_full_never_ends(s[lba], stem, ext, 0);
    lemma_chain_walk(s, l, size, chain, k);
}

/// The search for a name, past a cluster of a chain that ends in which it
/// finds nothing, goes on in the next.
pub proof fn lemma_find_follows(
    t: Seq<Seq<u8>>,
    l: Layout,
    size: nat,
    chain: Seq<usize>,
    k: int,
    stem: Seq<u8>,
    ext: Seq<u8>,
    fuel: nat,
)
    requires
        sane(l, size),
        is_chain(t, l, size, chain),
        0 <= k < chain.len() - 1,
        fuel > 0,
        cluster_lba(l, chain[k] as int) < t.len(),
        scan_names(t[cluster_lba(l, chain[k] as int)], stem, ext, 0) is Pass,
    ensures
        find_entry(t, l, chain[k], stem, ext, 16 * k, fuel) == find_entry(
            t,
            l,
            chain[k + 1],
            stem,
            ext,
            16 * (k + 1),
            (fuel - 1) as nat,
        ),
{
    lemma_chain_walk(t, l, size, chain, k);
}

/// The search for a name ends in the cluster in which it finds the name.
pub proof fn lemma_find_here(
    t: Seq<Seq<u8>>,
    l: Layout,
    cluster: usize,
    stem: Seq<u8>,
    ext: Seq<u8>,
    base: int,
    fuel: nat,
    j: int,
)
    requires
        0 <= cluster_lba(l, cluster as int) < t.len(),
        scan_names(t[cluster_lba(l, cluster as int)], stem, ext, 0) == Scan::Found(j),
    ensures
        find_entry(t, l, cluster, stem, ext, base, fuel) == Ok::<Option<usize>, ErrorView>(
            Some((base + j) as usize),
        ),
{
}

/// A name is found in the entry that was stored for it: in a directory
/// with the chain `chain`, in which it was not found in the sectors `s`,
/// the search in the sectors `t` ends on the entry `i`, where the clusters
/// before that of `i` are full and are in `t` what they were in `s`, the
/// entries before `i` in its cluster are in use and are in `t` what they
/// were in `s`, and the entry `i` holds the name in `t`.
#[verifier::rlimit(50)]
pub proof fn lemma_find_stored(
    s: Seq<Seq<u8>>,
    t: Seq<Seq<u8>>,
    l: Layout,
    size: nat,
    chain: Seq<usize>,
    longer: Seq<usize>,
    stem: Seq<u8>,
    ext: Seq<u8>,
    k: int,
    i: int,
    fuel: nat,
)
    requires
        sane(l, size),
        s.len() == t.len(),
        is_chain(s, l, size, chain),
        is_chain(t, l, size, longer),
        longer.len() >= chain.len(),
        longer.subrange(0, chain.len() as int) == chain,
        room_made(s, t, l, chain, k, i),
        0 <= k,
        i <= usize::MAX,
        find_entry(s, l, chain[k], stem, ext, 16 * k, fuel) == Ok::<Option<usize>, ErrorView>(None),
        slot(t[cluster_lba(l, chain[i / 16] as int)], i % 16)[0] != END_MARK,
        slot(t[cluster_lba(l, chain[i / 16] as int)], i % 16)[0] != FREE_MARK,
        has_name(slot(t[cluster_lba(l, chain[i / 16] as int)], i % 16), stem, ext),
    ensures
        find_entry(t, l, chain[k], stem, ext, 16 * k, fuel) == Ok::<Option<usize>, ErrorView>(
            Some(i as usize),
        ),
    decreases i / 16 - k,
{
    let lba = cluster_lba(l, chain[k] as int);
    assert(longer[k] == chain[k]) by {
        assert(longer.subrange(0, chain.len() as int)[k] == chain[k]);
    }
    assert(0 <= lba) by {
        assert(2 <= chain[k]);
    }
    if k < i / 16 {
        assert(longer[k + 1] == chain[k + 1]) by {
            assert(longer.subrange(0, chain.len() as int)[k + 1] == chain[k + 1]);
        }
        assert(lba < s.len() && unmarked(s[lba], 0, 16) && t[lba] == s[lba]) by {
            assert(cluster_lba(l, chain[k] as int) < s.len());
        }
        lemma_find_passes(s, l, size, chain, k, stem, ext, fuel);
        lemma_find_follows(t, l, size, longer, k, stem, ext, fuel);
        lemma_find_stored(s, t, l, size, chain, longer, stem, ext, k + 1, i, (fuel - 1) as nat);
    } else {
        assert(k == i / 16);
        assert(!(scan_names(s[lba], stem, ext, 0) is Found));
        lemma_scan_found(s[lba], t[lba], stem, ext, 0, i % 16);
        lemma_find_here(t, l, chain[k], stem, ext, 16 * k, fuel, i % 16);
        assert(16 * k + i % 16 == i);
    }
}

/// The entry that a search found lies in a cluster of the chain of its
/// directory.
pub proof fn lemma_found_in_chain(
    s: Seq<Seq<u8>>,
    l: Layout,
    size: nat,
    chain: Seq<usize>,
    k: int,
    stem: Seq<u8>,
    ext: Seq<u8>,
    fuel: nat,
)
    requires
        sane(l, size),
        is_chain(s, l, size, chain),
        0 <= k < chain.len(),
        16 * k + 16 * fuel <= 16 * MAX_HOPS,
        find_entry(s, l, chain[k], stem, ext, 16 * k, fuel) matches Ok(Some(i)),
    ensures
        16 * k <= find_entry(s, l, chain[k], stem, ext, 16 * k, fuel)->Ok_0->Some_0 < 16
            * chain.len(),
    decreases fuel,
{
    let sector = read_outcome(s, cluster_lba(l, chain[k] as int))->Ok_0;
    lemma_scan_names(sector, stem, ext, 0);
    match scan_names(sector, stem, ext, 0) {
        Scan::Found(j) => {},
        Scan::End => {},
        Scan::Pass => {
            lemma_chain_walk(s, l, size, chain, k);
            assert(find_entry(s, l, chain[k], stem, ext, 16 * k, fuel) == find_entry(
                s,
                l,
                chain[k + 1],
                stem,
                ext,
                16 * (k + 1),
                (fuel - 1) as nat,
            ));
            lemma_found_in_chain(s, l, size, chain, k + 1, stem, ext, (fuel - 1) as nat);
        },
    }
}

/// The number of clusters that the bytes of `data` from `from` on take up.
pub open spec fn chunks(len: int, from: int) -> int {
    (len - from + 511) / 512
}

/// The number of clusters that a new file of `len` bytes has: as many as
/// its contents take up, and one where it is empty.
pub open spec fn clusters_of(len: int) -> int {
    if len <= 0 {
        1
    } else {
        chunks(len, 0)
    }
}

/// Whether no cluster occurs twice in `chain`.
pub open spec fn distinct(chain: Seq<usize>) -> bool {
    forall|a: int, b: int| 0 <= a < b < chain.len() ==> chain[a] != chain[b]
}

/// The number of clusters of a chain of `had` clusters once contents that
/// take up `need` clusters were written from its cluster `p` on.
pub open spec fn grown_len(had: int, p: int, need: int) -> int {
    if had >= p + need {
        had
    } else {
        p + need
    }
}

/// What holds of the sectors `t` that writing along a chain left of the
/// sectors `s`, where `last` was the last cluster of the chain: of every
/// other cluster on the device that was in use, the table says what it
/// said, and the sector holds what it held.
pub open spec fn others_kept(s: Seq<Seq<u8>>, t: Seq<Seq<u8>>, l: Layout, size: nat, last: int) -> bool {
    forall|c: int|
        2 <= c < cluster_limit(l, size) && c != last && #[trigger] fat_entry(s, l, c) != Ok::<
            FatEntry,
            ErrorView,
        >(FatEntry::Free) ==> fat_entry(t, l, c) == fat_entry(s, l, c) && (cluster_lba(l, c)
            < s.len() ==> t[cluster_lba(l, c)] == s[cluster_lba(l, c)])
}

/// What holds of the sectors `t` that writing along the chain `chain` left
/// of the sectors `s`: of every cluster on the device that was in use and
/// is no cluster of the chain, the table says what it said, and the sector
/// holds what it held.
pub open spec fn outside_kept(
    s: Seq<Seq<u8>>,
    t: Seq<Seq<u8>>,
    l: Layout,
    size: nat,
    chain: Seq<usize>,
) -> bool {
    forall|c: int|
        2 <= c < cluster_limit(l, size) && apart(chain, c as usize) && #[trigger] fat_entry(s, l, c)
            != Ok::<FatEntry, ErrorView>(FatEntry::Free) ==> fat_entry(t, l, c) == fat_entry(
            s,
            l,
            c,
        ) && (cluster_lba(l, c) < s.len() ==> t[cluster_lba(l, c)] == s[cluster_lba(l, c)])
}

/// One step of writing along a chain that ends, on a sane volume: the
/// last cluster of the chain is written, and the chain is grown by a
/// cluster that was free.
pub proof fn lemma_chain_step(
    s: Seq<Seq<u8>>,
    l: Layout,
    size: nat,
    chain: Seq<usize>,
    chunk: Seq<u8>,
)
    requires
        sectors_wf(s),
        sane(l, size),
        is_chain(s, l, size, chain),
        put_cluster(s, l, chain.last() as int, chunk).result is Ok,
        allocate(
            put_cluster(s, l, chain.last() as int, chunk).sectors,
            l,
            size,
            Some(chain.last()),
        ).result is Ok,
    ensures
        ({
            let s1 = put_cluster(s, l, chain.last() as int, chunk).sectors;
            let grown = allocate(s1, l, size, Some(chain.last()));
            &&& next_of(s1, l, chain.last() as int) == Ok::<Option<usize>, ErrorView>(None)
            &&& sectors_wf(grown.sectors)
            &&& grown.sectors.len() == s.len()
            &&& is_chain(grown.sectors, l, size, chain.push(grown.result->Ok_0))
            &&& fat_entry(s, l, grown.result->Ok_0 as int) == Ok::<FatEntry, ErrorView>(
                FatEntry::Free,
            )
            &&& others_kept(s, grown.sectors, l, size, chain.last() as int)
        }),
{
    let cluster = chain.last();
    let limit = cluster_limit(l, size);
    let s1 = put_cluster(s, l, cluster as int, chunk).sectors;
    lemma_written(s, cluster_lba(l, cluster as int), chunk);
    assert forall|c: int| 0 <= c < limit implies #[trigger] fat_entry(s1, l, c) == fat_entry(
        s,
        l,
        c,
    ) by {
        lemma_cluster_write_keeps_table(s, l, size, cluster_lba(l, cluster as int), chunk, c);
    }
    assert(is_chain(s1, l, size, chain));
    let grown = allocate(s1, l, size, Some(cluster));
    let s2 = grown.sectors;
    let new = grown.result->Ok_0;
    lemma_allocate_next(s1, l, size, cluster);
    let longer = chain.push(new);
    assert forall|k: int| 0 <= k < longer.len() - 1 implies fat_entry(
        s2,
        l,
        (#[trigger] longer[k]) as int,
    ) == Ok::<FatEntry, ErrorView>(FatEntry::Cont(longer[k + 1] as u32)) by {
        if k < chain.len() - 1 {
            assert(longer[k] == chain[k]);
            assert(longer[k + 1] == chain[k + 1]);
            assert(fat_entry(s1, l, chain[k] as int) == Ok::<FatEntry, ErrorView>(
                FatEntry::Cont(chain[k + 1] as u32),
            ));
        }
    }
    assert forall|c: int|
        2 <= c < limit && c != cluster && #[trigger] fat_entry(s, l, c) != Ok::<
            FatEntry,
            ErrorView,
        >(FatEntry::Free) implies fat_entry(s2, l, c) == fat_entry(s, l, c) && (cluster_lba(l, c)
        < s.len() ==> s2[cluster_lba(l, c)] == s[cluster_lba(l, c)]) by {
        assert(fat_entry(s1, l, c) == fat_entry(s, l, c));
        assert(c != new);
        assert(fat_entry(s2, l, c) == fat_entry(s1, l, c));
        if cluster_lba(l, c) < s.len() {
            assert(s1[cluster_lba(l, c)] == s[cluster_lba(l, c)]);
            assert(s2[cluster_lba(l, c)] == s1[cluster_lba(l, c)]);
        }
    }
}

/// One step of writing along a chain that ends: a cluster of the chain is
/// written, and nothing else changes.
pub proof fn lemma_follow_step(
    s: Seq<Seq<u8>>,
    l: Layout,
    size: nat,
    chain: Seq<usize>,
    p: int,
    chunk: Seq<u8>,
)
    requires
        sectors_wf(s),
        sane(l, size),
        is_chain(s, l, size, chain),
        0 <= p < chain.len(),
        put_cluster(s, l, chain[p] as int, chunk).result is Ok,
    ensures
        sectors_wf(put_cluster(s, l, chain[p] as int, chunk).sectors),
        put_cluster(s, l, chain[p] as int, chunk).sectors.len() == s.len(),
        is_chain(put_cluster(s, l, chain[p] as int, chunk).sectors, l, size, chain),
        p < chain.len() - 1 ==> next_of(
            put_cluster(s, l, chain[p] as int, chunk).sectors,
            l,
            chain[p] as int,
        ) == Ok::<Option<usize>, ErrorView>(Some(chain[p + 1])),
        outside_kept(s, put_cluster(s, l, chain[p] as int, chunk).sectors, l, size, chain),
{
    let cluster = chain[p];
    let s1 = put_cluster(s, l, cluster as int, chunk).sectors;
    lemma_written(s, cluster_lba(l, cluster as int), chunk);
    assert forall|c: int| 0 <= c < cluster_limit(l, size) implies #[trigger] fat_entry(s1, l, c)
        == fat_entry(s, l, c) by {
        lemma_cluster_write_keeps_table(s, l, size, cluster_lba(l, cluster as int), chunk, c);
    }
    lemma_chain_kept(s, s1, l, size, chain);
    lemma_chain_walk(s1, l, size, chain, p);
    assert forall|c: int|
        2 <= c < cluster_limit(l, size) && apart(chain, c as usize) && #[trigger] fat_entry(s, l, c)
            != Ok::<FatEntry, ErrorView>(FatEntry::Free) implies fat_entry(s1, l, c) == fat_entry(
        s,
        l,
        c,
    ) && (cluster_lba(l, c) < s.len() ==> s1[cluster_lba(l, c)] == s[cluster_lba(l, c)]) by {
        assert(chain[p] != c);
    }
}

/// One step of writing along a chain that ends, in its last cluster: the
/// cluster is written, and the chain grows by a cluster that was free.
pub proof fn lemma_grow_step(
    s: Seq<Seq<u8>>,
    l: Layout,
    size: nat,
    chain: Seq<usize>,
    chunk: Seq<u8>,
)
    requires
        sectors_wf(s),
        sane(l, size),
        is_chain(s, l, size, chain),
        put_cluster(s, l, chain.last() as int, chunk).result is Ok,
        allocate(
            put_cluster(s, l, chain.last() as int, chunk).sectors,
            l,
            size,
            Some(chain.last()),
        ).result is Ok,
    ensures
        ({
            let s1 = put_cluster(s, l, chain.last() as int, chunk).sectors;
            let grown = allocate(s1, l, size, Some(chain.last()));
            &&& next_of(s1, l, chain.last() as int) == Ok::<Option<usize>, ErrorView>(None)
            &&& sectors_wf(grown.sectors)
            &&& grown.sectors.len() == s.len()
            &&& is_chain(grown.sectors, l, size, chain.push(grown.result->Ok_0))
            &&& fat_entry(s, l, grown.result->Ok_0 as int) == Ok::<FatEntry, ErrorView>(
                FatEntry::Free,
            )
            &&& outside_kept(s, grown.sectors, l, size, chain)
        }),
{
    lemma_chain_step(s, l, size, chain, chunk);
    let s1 = put_cluster(s, l, chain.last() as int, chunk).sectors;
    let t = allocate(s1, l, size, Some(chain.last())).sectors;
    assert forall|c: int|
        2 <= c < cluster_limit(l, size) && apart(chain, c as usize) && #[trigger] fat_entry(s, l, c)
            != Ok::<FatEntry, ErrorView>(FatEntry::Free) implies fat_entry(t, l, c) == fat_entry(
        s,
        l,
        c,
    ) && (cluster_lba(l, c) < s.len() ==> t[cluster_lba(l, c)] == s[cluster_lba(l, c)]) by {
        assert(chain[chain.len() - 1] != c);
    }
}

/// What two steps in a row keep outside a chain, the two together keep:
/// where the second step works on the chain of the first, or on that chain
/// grown by a cluster that was free before the first.
pub proof fn lemma_outside_kept_twice(
    s: Seq<Seq<u8>>,
    m: Seq<Seq<u8>>,
    t: Seq<Seq<u8>>,
    l: Layout,
    size: nat,
    chain: Seq<usize>,
    longer: Seq<usize>,
)
    requires
        sane(l, size),
        s.len() == m.len(),
        longer.len() > 0,
        outside_kept(s, m, l, size, chain),
        outside_kept(m, t, l, size, longer),
        longer == chain || (longer == chain.push(longer.last()) && fat_entry(
            s,
            l,
            longer.last() as int,
        ) == Ok::<FatEntry, ErrorView>(FatEntry::Free)),
    ensures
        outside_kept(s, t, l, size, chain),
{
    assert forall|c: int|
        2 <= c < cluster_limit(l, size) && apart(chain, c as usize) && #[trigger] fat_entry(s, l, c)
            != Ok::<FatEntry, ErrorView>(FatEntry::Free) implies fat_entry(t, l, c) == fat_entry(
        s,
        l,
        c,
    ) && (cluster_lba(l, c) < s.len() ==> t[cluster_lba(l, c)] == s[cluster_lba(l, c)]) by {
        assert(fat_entry(m, l, c) == fat_entry(s, l, c));
        assert(apart(longer, c as usize)) by {
            if longer != chain {
                assert forall|k: int| 0 <= k < longer.len() implies #[trigger] longer[k]
                    != c as usize by {
                    if k < chain.len() {
                        assert(longer[k] == chain[k]);
                    } else {
                        assert(longer[k] == longer.last());
                        assert((c as usize) as int == c);
                    }
                }
            }
        }
        assert(fat_entry(m, l, c) != Ok::<FatEntry, ErrorView>(FatEntry::Free));
    }
}

/// Writing the contents of a file along a chain that ends, from a cluster
/// of that chain on, on a sane volume, leaves a chain that ends: the chain
/// it found, grown by the clusters that it lacked, so that contents that
/// take up more clusters than the chain had from that cluster on end in its
/// last cluster. The clusters that were in use and are none of that chain
/// stay as they were.
#[verifier::rlimit(50)]
pub proof fn lemma_write_along(
    s: Seq<Seq<u8>>,
    l: Layout,
    size: nat,
    chain: Seq<usize>,
    p: int,
    data: Seq<u8>,
    from: int,
) -> (r: Seq<usize>)
    requires
        sectors_wf(s),
        sane(l, size),
        is_chain(s, l, size, chain),
        0 <= p < chain.len(),
        0 <= from <= data.len(),
        write_chain(s, l, size, chain[p], data, from).result is Ok,
    ensures
        sectors_wf(write_chain(s, l, size, chain[p], data, from).sectors),
        write_chain(s, l, size, chain[p], data, from).sectors.len() == s.len(),
        is_chain(write_chain(s, l, size, chain[p], data, from).sectors, l, size, r),
        r.len() == grown_len(chain.len() as int, p, chunks(data.len() as int, from)),
        r.len() >= chain.len(),
        r.subrange(0, chain.len() as int) == chain,
        outside_kept(s, write_chain(s, l, size, chain[p], data, from).sectors, l, size, chain),
    decreases data.len() - from,
{
    let cluster = chain[p];
    if from >= data.len() {
        assert(chain.subrange(0, chain.len() as int) =~= chain);
        chain
    } else {
        let upto = if from + 512 <= data.len() {
            from + 512
        } else {
            data.len() as int
        };
        let chunk = data.subrange(from, upto);
        let s1 = put_cluster(s, l, cluster as int, chunk).sectors;
        assert(put_cluster(s, l, cluster as int, chunk).result is Ok);
        if upto >= data.len() {
            // the last of the contents: the chain is left as it is
            lemma_follow_step(s, l, size, chain, p, chunk);
            assert(chain.subrange(0, chain.len() as int) =~= chain);
            chain
        } else if p < chain.len() - 1 {
            lemma_follow_step(s, l, size, chain, p, chunk);
            assert(write_chain(s, l, size, cluster, data, from) == write_chain(
                s1,
                l,
                size,
                chain[p + 1],
                data,
                upto,
            ));
            let r = lemma_write_along(s1, l, size, chain, p + 1, data, upto);
            let t = write_chain(s1, l, size, chain[p + 1], data, upto).sectors;
            lemma_outside_kept_twice(s, s1, t, l, size, chain, chain);
            r
        } else {
            assert(chain[p] == chain.last());
            assert(fat_entry(s1, l, cluster as int) == fat_entry(s, l, cluster as int)) by {
                lemma_cluster_write_keeps_table(
                    s,
                    l,
                    size,
                    cluster_lba(l, cluster as int),
                    chunk,
                    cluster as int,
                );
            }
            assert(next_of(s1, l, cluster as int) == Ok::<Option<usize>, ErrorView>(None));
            let grown = allocate(s1, l, size, Some(cluster));
            let s2 = grown.sectors;
            let new = grown.result->Ok_0;
            assert(grown.result is Ok);
            lemma_grow_step(s, l, size, chain, chunk);
            let longer = chain.push(new);
            assert(longer[p + 1] == new);
            assert(write_chain(s, l, size, cluster, data, from) == write_chain(
                s2,
                l,
                size,
                new,
                data,
                upto,
            ));
            let r = lemma_write_along(s2, l, size, longer, p + 1, data, upto);
            let t = write_chain(s2, l, size, new, data, upto).sectors;
            assert(r.subrange(0, chain.len() as int) =~= chain) by {
                assert(r.subrange(0, longer.len() as int) == longer);
                assert forall|k: int| 0 <= k < chain.len() implies r[k] == chain[k] by {
                    assert(r.subrange(0, longer.len() as int)[k] == longer[k]);
                }
            }
            assert(longer.last() == new);
            lemma_outside_kept_twice(s, s2, t, l, size, chain, longer);
            r
        }
    }
}

/// Writing along the chain of a file passes by a directory whose chain
/// ends and has no cluster in common with that of the file: the chain of
/// the directory still ends, and its entries read as they did.
pub proof fn lemma_dir_passed_by(
    s: Seq<Seq<u8>>,
    t: Seq<Seq<u8>>,
    l: Layout,
    size: nat,
    dir: Seq<usize>,
    file: Seq<usize>,
    i: usize,
)
    requires
        sane(l, size),
        s.len() == t.len(),
        is_chain(s, l, size, dir),
        disjoint(dir, file),
        outside_kept(s, t, l, size, file),
        i / 16 < dir.len(),
        cluster_lba(l, dir[i as int / 16] as int) < s.len(),
    ensures
        is_chain(t, l, size, dir),
        dire_at(t, l, dir[0], i) == dire_at(s, l, dir[0], i),
{
    assert forall|k: int| 0 <= k < dir.len() implies apart(file, #[trigger] dir[k])
        && fat_entry(s, l, dir[k] as int) != Ok::<FatEntry, ErrorView>(FatEntry::Free) by {
        assert forall|j: int| 0 <= j < file.len() implies #[trigger] file[j] != dir[k] by {
            assert(dir[k] != file[j]);
        }
        if k < dir.len() - 1 {
            assert(fat_entry(s, l, dir[k] as int) == Ok::<FatEntry, ErrorView>(
                FatEntry::Cont(dir[k + 1] as u32),
            ));
        }
    }
    assert forall|k: int| 0 <= k < dir.len() implies fat_entry(t, l, (#[trigger] dir[k]) as int)
        == fat_entry(s, l, dir[k] as int) by {
        assert(apart(file, dir[k]));
        assert(fat_entry(s, l, dir[k] as int) != Ok::<FatEntry, ErrorView>(FatEntry::Free));
    }
    lemma_chain_kept(s, t, l, size, dir);
    let k = i as int / 16;
    lemma_chain_walk(t, l, size, dir, k);
    lemma_chain_walk(s, l, size, dir, k);
    let cd = dir[k];
    assert(apart(file, cd));
    assert(fat_entry(s, l, cd as int) != Ok::<FatEntry, ErrorView>(FatEntry::Free));
    assert(t[cluster_lba(l, cd as int)] == s[cluster_lba(l, cd as int)]);
}

} // verus!
