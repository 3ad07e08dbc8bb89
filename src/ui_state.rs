use vstd::prelude::*;

use crate::cli::UnitFamily;
use crate::network::{
    get_proc_info, owner_of, resolve, ConnectionSample, LocalSocket, ProcessInfo,
};

verus! {

/// The number of samples kept in each history.
pub const HISTORY_LENGTH: usize = 40;

/// The largest number of rows kept for display.
pub const MAX_BANDWIDTH_ITEMS: usize = 1000;

/// The number of unresolved sockets remembered so that each is reported once.
pub const MAX_KNOWN_ORPHANS: usize = 10_000;

/// Bytes moved in both directions.
#[derive(Clone, Copy, Debug, PartialEq, Eq, Structural)]
pub struct NetworkData {
    pub total_bytes_downloaded: u128,
    pub total_bytes_uploaded: u128,
}

/// What is kept of one process across ticks.
#[derive(Clone, Debug)]
pub struct ProcessHistory {
    pub total_bytes_downloaded: u128,
    pub total_bytes_uploaded: u128,
    pub download_history: Vec<u128>,
    pub upload_history: Vec<u128>,
}

/// The model of a `ProcessHistory`.
pub struct HistoryView {
    pub total_bytes_downloaded: int,
    pub total_bytes_uploaded: int,
    pub download_history: Seq<u128>,
    pub upload_history: Seq<u128>,
}

impl View for ProcessHistory {
    type V = HistoryView;

    open spec fn view(&self) -> HistoryView {
        HistoryView {
            total_bytes_downloaded: self.total_bytes_downloaded as int,
            total_bytes_uploaded: self.total_bytes_uploaded as int,
            download_history: self.download_history@,
            upload_history: self.upload_history@,
        }
    }
}

/// One display row: a process, what it moved this tick, and its history.
#[derive(Clone, Debug)]
pub struct ProcessRow {
    pub process: ProcessInfo,
    pub current_bytes_downloaded: u128,
    pub current_bytes_uploaded: u128,
    pub total_bytes_downloaded: u128,
    pub total_bytes_uploaded: u128,
    pub download_history: Vec<u128>,
    pub upload_history: Vec<u128>,
}

/// A socket that no process could be found for, reported the first time it is seen.
/// `lookalike` is a socket of the process table with the same port and protocol
/// that also carried traffic this tick, with its owner.
#[derive(Clone, Debug)]
pub struct OrphanWarning {
    pub socket: LocalSocket,
    pub lookalike: Option<(LocalSocket, ProcessInfo)>,
}

/// The state kept from tick to tick.
pub struct UIState {
    /// The interface name in single-interface mode. `None` means all interfaces.
    pub interface_name: Option<String>,
    pub total_bytes_downloaded: u128,
    pub total_bytes_uploaded: u128,
    pub unit_family: UnitFamily,
    pub process_rows: Vec<ProcessRow>,
    /// One slot per process seen so far, in the order in which they were first seen.
    pub process_history: Vec<(ProcessInfo, ProcessHistory)>,
    /// Unresolved sockets already reported, newest first. Used for reducing logging noise.
    pub known_orphan_sockets: Vec<LocalSocket>,
}

/// The bytes of one sample in one direction.
pub open spec fn sample_bytes(c: ConnectionSample, upload: bool) -> int {
    if upload {
        c.total_bytes_uploaded as int
    } else {
        c.total_bytes_downloaded as int
    }
}

/// The bytes of one tick in one direction, over all connections.
pub open spec fn tick_total(u: Seq<(LocalSocket, ConnectionSample)>, upload: bool) -> int
    decreases u.len(),
{
    if u.len() == 0 {
        0
    } else {
        tick_total(u.drop_last(), upload) + sample_bytes(u.last().1, upload)
    }
}

/// The bytes of one tick in one direction over the connections accounted to `k`.
pub open spec fn process_tick(
    ctp: Seq<(LocalSocket, ProcessInfo)>,
    u: Seq<(LocalSocket, ConnectionSample)>,
    k: (Seq<char>, u32),
    upload: bool,
) -> int
    decreases u.len(),
{
    if u.len() == 0 {
        0
    } else {
        process_tick(ctp, u.drop_last(), k, upload) + if owner_of(ctp, u.last().0) == k {
            sample_bytes(u.last().1, upload)
        } else {
            0
        }
    }
}

/// Whether some connection of the tick is accounted to `k`.
pub open spec fn is_owner(
    ctp: Seq<(LocalSocket, ProcessInfo)>,
    u: Seq<(LocalSocket, ConnectionSample)>,
    k: (Seq<char>, u32),
) -> bool {
    exists|i: int| 0 <= i < u.len() && owner_of(ctp, #[trigger] u[i].0) == k
}

/// The bytes of an amount in one direction.
pub open spec fn data_bytes(d: NetworkData, upload: bool) -> int {
    if upload {
        d.total_bytes_uploaded as int
    } else {
        d.total_bytes_downloaded as int
    }
}

/// The sum of one direction over a sequence of amounts.
pub open spec fn data_sum(c: Seq<NetworkData>, upload: bool) -> int
    decreases c.len(),
{
    if c.len() == 0 {
        0
    } else {
        data_sum(c.drop_last(), upload) + data_bytes(c.last(), upload)
    }
}

/// The most recent `HISTORY_LENGTH` samples.
pub open spec fn trimmed(s: Seq<u128>) -> Seq<u128> {
    if s.len() > HISTORY_LENGTH {
        s.subrange(s.len() - HISTORY_LENGTH, s.len() as int)
    } else {
        s
    }
}

/// The history of a process seen for the first time.
pub open spec fn empty_history() -> HistoryView {
    HistoryView {
        total_bytes_downloaded: 0,
        total_bytes_uploaded: 0,
        download_history: Seq::empty(),
        upload_history: Seq::empty(),
    }
}

/// A history after one tick that moved `down` and `up` bytes.
pub open spec fn advance(h: HistoryView, down: int, up: int) -> HistoryView {
    HistoryView {
        total_bytes_downloaded: h.total_bytes_downloaded + down,
        total_bytes_uploaded: h.total_bytes_uploaded + up,
        download_history: trimmed(h.download_history.push(down as u128)),
        upload_history: trimmed(h.upload_history.push(up as u128)),
    }
}

/// The history kept for `k`, if any.
pub open spec fn history_of(s: Seq<(ProcessInfo, ProcessHistory)>, k: (Seq<char>, u32)) -> Option<
    HistoryView,
>
    decreases s.len(),
{
    if s.len() == 0 {
        None
    } else if s[0].0@ == k {
        Some(s[0].1@)
    } else {
        history_of(s.drop_first(), k)
    }
}

/// No process is kept twice.
pub open spec fn unique_keys(s: Seq<(ProcessInfo, ProcessHistory)>) -> bool {
    forall|i: int, j: int| 0 <= i < j < s.len() ==> s[i].0@ != s[j].0@
}

proof fn lemma_history_of_index(s: Seq<(ProcessInfo, ProcessHistory)>, i: int)
    requires
        unique_keys(s),
        0 <= i < s.len(),
    ensures
        history_of(s, s[i].0@) == Some(s[i].1@),
    decreases s.len(),
{
    if i > 0 {
        assert(s[0].0@ != s[i].0@);
        let t = s.drop_first();
        assert(t[i - 1] == s[i]);
        assert(unique_keys(t)) by {
            assert forall|a: int, b: int| 0 <= a < b < t.len() implies t[a].0@ != t[b].0@ by {
                assert(t[a] == s[a + 1] && t[b] == s[b + 1]);
            }
        }
        lemma_history_of_index(t, i - 1);
    }
}

proof fn lemma_history_of_member(s: Seq<(ProcessInfo, ProcessHistory)>, k: (Seq<char>, u32))
    requires
        history_of(s, k) is Some,
    ensures
        exists|j: int| 0 <= j < s.len() && s[j].0@ == k && history_of(s, k) == Some(s[j].1@),
    decreases s.len(),
{
    if s[0].0@ != k {
        let t = s.drop_first();
        lemma_history_of_member(t, k);
        let j = choose|j: int| 0 <= j < t.len() && t[j].0@ == k && history_of(t, k) == Some(t[j].1@);
        assert(s[j + 1] == t[j]);
    }
}

proof fn lemma_history_of_absent(s: Seq<(ProcessInfo, ProcessHistory)>, k: (Seq<char>, u32))
    requires
        forall|i: int| 0 <= i < s.len() ==> s[i].0@ != k,
    ensures
        history_of(s, k) is None,
    decreases s.len(),
{
    if s.len() > 0 {
        let t = s.drop_first();
        assert forall|i: int| 0 <= i < t.len() implies t[i].0@ != k by {
            assert(t[i] == s[i + 1]);
        }
        lemma_history_of_absent(t, k);
    }
}

proof fn lemma_data_sum_update(c: Seq<NetworkData>, j: int, x: NetworkData, upload: bool)
    requires
        0 <= j < c.len(),
    ensures
        data_sum(c.update(j, x), upload) == data_sum(c, upload) - data_bytes(c[j], upload)
            + data_bytes(x, upload),
    decreases c.len(),
{
    let d = c.update(j, x);
    if j == c.len() - 1 {
        assert(d.drop_last() =~= c.drop_last());
    } else {
        assert(d.drop_last() =~= c.drop_last().update(j, x));
        lemma_data_sum_update(c.drop_last(), j, x, upload);
    }
}

proof fn lemma_data_sum_le(c: Seq<NetworkData>, j: int, upload: bool)
    requires
        0 <= j < c.len(),
    ensures
        data_bytes(c[j], upload) <= data_sum(c, upload),
    decreases c.len(),
{
    lemma_data_sum_nonneg(c.drop_last(), upload);
    if j < c.len() - 1 {
        lemma_data_sum_le(c.drop_last(), j, upload);
    }
}

proof fn lemma_data_sum_nonneg(c: Seq<NetworkData>, upload: bool)
    ensures
        data_sum(c, upload) >= 0,
    decreases c.len(),
{
    if c.len() > 0 {
        lemma_data_sum_nonneg(c.drop_last(), upload);
    }
}

proof fn lemma_tick_total_nonneg(u: Seq<(LocalSocket, ConnectionSample)>, upload: bool)
    ensures
        tick_total(u, upload) >= 0,
    decreases u.len(),
{
    if u.len() > 0 {
        lemma_tick_total_nonneg(u.drop_last(), upload);
    }
}

proof fn lemma_tick_total_prefix(u: Seq<(LocalSocket, ConnectionSample)>, i: int, upload: bool)
    requires
        0 <= i <= u.len(),
    ensures
        0 <= tick_total(u.subrange(0, i), upload) <= tick_total(u, upload),
    decreases u.len(),
{
    lemma_tick_total_nonneg(u.subrange(0, i), upload);
    if i == u.len() {
        assert(u.subrange(0, i) =~= u);
    } else {
        assert(u.subrange(0, i) =~= u.drop_last().subrange(0, i));
        lemma_tick_total_prefix(u.drop_last(), i, upload);
    }
}

proof fn lemma_process_tick_absent(
    ctp: Seq<(LocalSocket, ProcessInfo)>,
    u: Seq<(LocalSocket, ConnectionSample)>,
    k: (Seq<char>, u32),
    upload: bool,
)
    requires
        !is_owner(ctp, u, k),
    ensures
        process_tick(ctp, u, k, upload) == 0,
    decreases u.len(),
{
    if u.len() > 0 {
        let t = u.drop_last();
        assert(owner_of(ctp, u[u.len() - 1].0) != k);
        assert(!is_owner(ctp, t, k)) by {
            if is_owner(ctp, t, k) {
                let x = choose|x: int| 0 <= x < t.len() && owner_of(ctp, #[trigger] t[x].0) == k;
                assert(u[x] == t[x]);
            }
        }
        lemma_process_tick_absent(ctp, t, k, upload);
    }
}

/// The index of the slot kept for `p`, if any.
fn find_slot(slots: &Vec<(ProcessInfo, ProcessHistory)>, p: &ProcessInfo) -> (r: Option<usize>)
    ensures
        match r {
            Some(j) => j < slots@.len() && slots@[j as int].0@ == p@,
            None => forall|j: int| 0 <= j < slots@.len() ==> slots@[j].0@ != p@,
        },
{
    let mut j: usize = 0;
    while j < slots.len()
        invariant
            j <= slots@.len(),
            forall|x: int| 0 <= x < j ==> slots@[x].0@ != p@,
        decreases slots@.len() - j,
    {
        if slots[j].0.same_process(p) {
            return Some(j);
        }
        j = j + 1;
    }
    None
}

/// Accounts each connection of the tick to its owner: adds a slot for each owner not
/// kept yet, and returns, for each slot, what its process moved in this tick.
fn tally(
    slots: &mut Vec<(ProcessInfo, ProcessHistory)>,
    ctp: &Vec<(LocalSocket, ProcessInfo)>,
    util: &Vec<(LocalSocket, ConnectionSample)>,
) -> (current: Vec<NetworkData>)
    requires
        unique_keys(old(slots)@),
        tick_total(util@, false) <= u128::MAX,
        tick_total(util@, true) <= u128::MAX,
    ensures
        unique_keys(final(slots)@),
        final(slots)@.len() >= old(slots)@.len(),
        current@.len() == final(slots)@.len(),
        forall|j: int| 0 <= j < old(slots)@.len() ==> #[trigger] final(slots)@[j] == old(slots)@[j],
        forall|j: int|
            old(slots)@.len() <= j < final(slots)@.len() ==> (#[trigger] final(slots)@[j]).1@
                == empty_history() && is_owner(ctp@, util@, final(slots)@[j].0@),
        forall|k: (Seq<char>, u32)|
            is_owner(ctp@, util@, k) ==> exists|j: int|
                0 <= j < final(slots)@.len() && (#[trigger] final(slots)@[j]).0@ == k,
        forall|j: int|
            0 <= j < current@.len() ==> (#[trigger] current@[j]).total_bytes_downloaded
                == process_tick(ctp@, util@, final(slots)@[j].0@, false)
                && current@[j].total_bytes_uploaded == process_tick(
                ctp@,
                util@,
                final(slots)@[j].0@,
                true,
            ),
        data_sum(current@, false) == tick_total(util@, false),
        data_sum(current@, true) == tick_total(util@, true),
{
    let ghost old_slots = slots@;
    let mut current: Vec<NetworkData> = Vec::new();
    let mut j: usize = 0;
    while j < slots.len()
        invariant
            slots@ == old_slots,
            j <= slots@.len(),
            current@.len() == j,
            forall|x: int| 0 <= x < j ==> #[trigger] current@[x] == (NetworkData {
                total_bytes_downloaded: 0,
                total_bytes_uploaded: 0,
            }),
            data_sum(current@, false) == 0,
            data_sum(current@, true) == 0,
        decreases slots@.len() - j,
    {
        let ghost before = current@;
        current.push(NetworkData { total_bytes_downloaded: 0, total_bytes_uploaded: 0 });
        assert(current@.drop_last() =~= before);
        j = j + 1;
    }
    proof {
        assert(util@.subrange(0, 0) =~= Seq::<(LocalSocket, ConnectionSample)>::empty());
        assert forall|j: int| 0 <= j < current@.len() implies (#[trigger] current@[j]).total_bytes_downloaded
            == process_tick(ctp@, util@.subrange(0, 0), slots@[j].0@, false)
            && current@[j].total_bytes_uploaded == process_tick(
            ctp@,
            util@.subrange(0, 0),
            slots@[j].0@,
            true,
        ) by {}
    }
    let mut i: usize = 0;
    while i < util.len()
        invariant
            i <= util@.len(),
            tick_total(util@, false) <= u128::MAX,
            tick_total(util@, true) <= u128::MAX,
            unique_keys(slots@),
            slots@.len() >= old_slots.len(),
            current@.len() == slots@.len(),
            forall|j: int| 0 <= j < old_slots.len() ==> #[trigger] slots@[j] == old_slots[j],
            forall|j: int|
                old_slots.len() <= j < slots@.len() ==> (#[trigger] slots@[j]).1@ == empty_history()
                    && is_owner(ctp@, util@.subrange(0, i as int), slots@[j].0@),
            forall|k: (Seq<char>, u32)|
                is_owner(ctp@, util@.subrange(0, i as int), k) ==> exists|j: int|
                    0 <= j < slots@.len() && (#[trigger] slots@[j]).0@ == k,
            forall|j: int|
                0 <= j < current@.len() ==> (#[trigger] current@[j]).total_bytes_downloaded
                    == process_tick(ctp@, util@.subrange(0, i as int), slots@[j].0@, false)
                    && current@[j].total_bytes_uploaded == process_tick(
                    ctp@,
                    util@.subrange(0, i as int),
                    slots@[j].0@,
                    true,
                ),
            data_sum(current@, false) == tick_total(util@.subrange(0, i as int), false),
            data_sum(current@, true) == tick_total(util@.subrange(0, i as int), true),
        decreases util@.len() - i,
    {
        let ghost u0 = util@.subrange(0, i as int);
        let ghost u1 = util@.subrange(0, i + 1);
        proof {
            assert(u1.drop_last() =~= u0);
            assert(u1.last() == util@[i as int]);
            lemma_tick_total_prefix(util@, i + 1, false);
            lemma_tick_total_prefix(util@, i + 1, true);
        }
        let socket = util[i].0;
        let sample = util[i].1;
        let owner = match get_proc_info(ctp, &socket) {
            Some(p) => p.duplicate(),
            None => ProcessInfo::unknown(),
        };
        assert(owner@ == owner_of(ctp@, socket));
        let ghost slots0 = slots@;
        let ghost current0 = current@;
        match find_slot(slots, &owner) {
            Some(j) => {
                proof {
                    lemma_data_sum_le(current@, j as int, false);
                    lemma_data_sum_le(current@, j as int, true);
                }
                let c = current[j];
                let next = NetworkData {
                    total_bytes_downloaded: c.total_bytes_downloaded
                        + sample.total_bytes_downloaded,
                    total_bytes_uploaded: c.total_bytes_uploaded + sample.total_bytes_uploaded,
                };
                current.set(j, next);
                proof {
                    lemma_data_sum_update(current0, j as int, next, false);
                    lemma_data_sum_update(current0, j as int, next, true);
                    assert forall|x: int| 0 <= x < current@.len() implies (
                    #[trigger] current@[x]).total_bytes_downloaded == process_tick(
                        ctp@,
                        u1,
                        slots@[x].0@,
                        false,
                    ) && current@[x].total_bytes_uploaded == process_tick(
                        ctp@,
                        u1,
                        slots@[x].0@,
                        true,
                    ) by {
                        if x != j {
                            assert(slots@[x].0@ != slots@[j as int].0@);
                        }
                    }
                    assert forall|x: int|
                        old_slots.len() <= x < slots@.len() implies (#[trigger] slots@[x]).1@
                        == empty_history() && is_owner(ctp@, u1, slots@[x].0@) by {
                        let w = choose|w: int|
                            0 <= w < u0.len() && owner_of(ctp@, #[trigger] u0[w].0)
                                == slots@[x].0@;
                        assert(u1[w] == u0[w]);
                    }
                }
            },
            None => {
                proof {
                    lemma_process_tick_absent(ctp@, u0, owner@, false);
                    lemma_process_tick_absent(ctp@, u0, owner@, true);
                    lemma_data_sum_nonneg(current@, false);
                }
                let next = NetworkData {
                    total_bytes_downloaded: sample.total_bytes_downloaded,
                    total_bytes_uploaded: sample.total_bytes_uploaded,
                };
                slots.push(
                    (
                        owner,
                        ProcessHistory {
                            total_bytes_downloaded: 0,
                            total_bytes_uploaded: 0,
                            download_history: Vec::new(),
                            upload_history: Vec::new(),
                        },
                    ),
                );
                current.push(next);
                proof {
                    assert(current@.drop_last() =~= current0);
                    assert(is_owner(ctp@, u1, owner_of(ctp@, socket))) by {
                        assert(u1[i as int].0 == socket);
                    }
                    assert forall|x: int| 0 <= x < current@.len() implies (
                    #[trigger] current@[x]).total_bytes_downloaded == process_tick(
                        ctp@,
                        u1,
                        slots@[x].0@,
                        false,
                    ) && current@[x].total_bytes_uploaded == process_tick(
                        ctp@,
                        u1,
                        slots@[x].0@,
                        true,
                    ) by {
                        if x < slots0.len() {
                            assert(slots@[x] == slots0[x]);
                        }
                    }
                    assert forall|x: int|
                        old_slots.len() <= x < slots@.len() implies (#[trigger] slots@[x]).1@
                        == empty_history() && is_owner(ctp@, u1, slots@[x].0@) by {
                        if x < slots0.len() {
                            assert(slots@[x] == slots0[x]);
                            let w = choose|w: int|
                                0 <= w < u0.len() && owner_of(ctp@, #[trigger] u0[w].0)
                                    == slots@[x].0@;
                            assert(u1[w] == u0[w]);
                        }
                    }
                    assert forall|a: int, b: int| 0 <= a < b < slots@.len() implies slots@[a].0@
                        != slots@[b].0@ by {
                        if b < slots0.len() {
                            assert(slots@[a] == slots0[a] && slots@[b] == slots0[b]);
                        } else {
                            assert(slots@[a] == slots0[a]);
                        }
                    }
                }
            },
        }
        proof {
            assert forall|k: (Seq<char>, u32)| is_owner(ctp@, u1, k) implies exists|j: int|
                0 <= j < slots@.len() && (#[trigger] slots@[j]).0@ == k by {
                let w = choose|w: int| 0 <= w < u1.len() && owner_of(ctp@, #[trigger] u1[w].0) == k;
                if w < i {
                    assert(u0[w] == u1[w]);
                    assert(is_owner(ctp@, u0, k));
                    let j0 = choose|j: int| 0 <= j < slots0.len() && (#[trigger] slots0[j]).0@ == k;
                    assert(slots@[j0] == slots0[j0]);
                } else {
                    assert(u1[w] == util@[i as int]);
                    if slots@.len() > slots0.len() {
                        assert(slots@[slots0.len() as int].0@ == k);
                    }
                }
            }
            assert forall|j: int| 0 <= j < old_slots.len() implies #[trigger] slots@[j]
                == old_slots[j] by {
                assert(slots@[j] == slots0[j]);
            }
        }
        i = i + 1;
    }
    proof {
        assert(util@.subrange(0, util@.len() as int) =~= util@);
    }
    current
}

/// A copy of a sequence of samples.
fn copy_samples(v: &Vec<u128>) -> (r: Vec<u128>)
    ensures
        r@ == v@,
{
    let mut r: Vec<u128> = Vec::new();
    let mut i: usize = 0;
    while i < v.len()
        invariant
            i <= v@.len(),
            r@ == v@.subrange(0, i as int),
        decreases v@.len() - i,
    {
        r.push(v[i]);
        i = i + 1;
        assert(r@ =~= v@.subrange(0, i as int));
    }
    assert(v@.subrange(0, v@.len() as int) =~= v@);
    r
}

/// Drops the oldest samples of both histories until each holds at most `HISTORY_LENGTH`.
fn trim_history(history: &mut ProcessHistory)
    ensures
        final(history)@ == (HistoryView {
            download_history: trimmed(old(history)@.download_history),
            upload_history: trimmed(old(history)@.upload_history),
            ..old(history)@
        }),
{
    let ghost d0 = history.download_history@;
    let ghost u0 = history.upload_history@;
    assert(d0.subrange(0, d0.len() as int) =~= d0);
    assert(u0.subrange(0, u0.len() as int) =~= u0);
    while history.download_history.len() > HISTORY_LENGTH
        invariant
            history.download_history@.len() <= d0.len(),
            history.download_history@ == d0.subrange(
                d0.len() - history.download_history@.len(),
                d0.len() as int,
            ),
            d0.len() > HISTORY_LENGTH ==> history.download_history@.len() >= HISTORY_LENGTH,
            d0.len() <= HISTORY_LENGTH ==> history.download_history@ == d0,
            history.upload_history@ == u0,
            history.total_bytes_downloaded == old(history).total_bytes_downloaded,
            history.total_bytes_uploaded == old(history).total_bytes_uploaded,
        decreases history.download_history@.len(),
    {
        history.download_history.remove(0);
        assert(history.download_history@ =~= d0.subrange(
            d0.len() - history.download_history@.len(),
            d0.len() as int,
        ));
    }
    while history.upload_history.len() > HISTORY_LENGTH
        invariant
            history.upload_history@.len() <= u0.len(),
            history.upload_history@ == u0.subrange(
                u0.len() - history.upload_history@.len(),
                u0.len() as int,
            ),
            u0.len() > HISTORY_LENGTH ==> history.upload_history@.len() >= HISTORY_LENGTH,
            u0.len() <= HISTORY_LENGTH ==> history.upload_history@ == u0,
            history.download_history@ == trimmed(d0),
            history.total_bytes_downloaded == old(history).total_bytes_downloaded,
            history.total_bytes_uploaded == old(history).total_bytes_uploaded,
        decreases history.upload_history@.len(),
    {
        history.upload_history.remove(0);
        assert(history.upload_history@ =~= u0.subrange(
            u0.len() - history.upload_history@.len(),
            u0.len() as int,
        ));
    }
}

/// The history of `h` after a tick that moved `d`.
fn advance_history(h: &ProcessHistory, d: NetworkData) -> (r: ProcessHistory)
    requires
        h.total_bytes_downloaded + d.total_bytes_downloaded <= u128::MAX,
        h.total_bytes_uploaded + d.total_bytes_uploaded <= u128::MAX,
    ensures
        r@ == advance(
            h@,
            d.total_bytes_downloaded as int,
            d.total_bytes_uploaded as int,
        ),
{
    let mut download_history = copy_samples(&h.download_history);
    download_history.push(d.total_bytes_downloaded);
    let mut upload_history = copy_samples(&h.upload_history);
    upload_history.push(d.total_bytes_uploaded);
    let mut r = ProcessHistory {
        total_bytes_downloaded: h.total_bytes_downloaded + d.total_bytes_downloaded,
        total_bytes_uploaded: h.total_bytes_uploaded + d.total_bytes_uploaded,
        download_history,
        upload_history,
    };
    trim_history(&mut r);
    r
}

/// Appends this tick's amounts to every kept history.
fn advance_all(slots: &mut Vec<(ProcessInfo, ProcessHistory)>, current: &Vec<NetworkData>)
    requires
        current@.len() == old(slots)@.len(),
        forall|j: int|
            0 <= j < current@.len() ==> old(slots)@[j].1.total_bytes_downloaded
                + (#[trigger] current@[j]).total_bytes_downloaded <= u128::MAX
                && old(slots)@[j].1.total_bytes_uploaded + current@[j].total_bytes_uploaded
                <= u128::MAX,
    ensures
        final(slots)@.len() == old(slots)@.len(),
        forall|j: int|
            0 <= j < final(slots)@.len() ==> (#[trigger] final(slots)@[j]).0@ == old(slots)@[j].0@
                && final(slots)@[j].1@ == advance(
                old(slots)@[j].1@,
                current@[j].total_bytes_downloaded as int,
                current@[j].total_bytes_uploaded as int,
            ),
{
    let ghost s0 = slots@;
    let mut j: usize = 0;
    while j < slots.len()
        invariant
            slots@.len() == s0.len(),
            current@.len() == s0.len(),
            j <= s0.len(),
            forall|x: int|
                0 <= x < current@.len() ==> s0[x].1.total_bytes_downloaded
                    + (#[trigger] current@[x]).total_bytes_downloaded <= u128::MAX
                    && s0[x].1.total_bytes_uploaded + current@[x].total_bytes_uploaded
                    <= u128::MAX,
            forall|x: int| j <= x < s0.len() ==> #[trigger] slots@[x] == s0[x],
            forall|x: int|
                0 <= x < j ==> (#[trigger] slots@[x]).0@ == s0[x].0@ && slots@[x].1@ == advance(
                    s0[x].1@,
                    current@[x].total_bytes_downloaded as int,
                    current@[x].total_bytes_uploaded as int,
                ),
        decreases s0.len() - j,
    {
        let h = advance_history(&slots[j].1, current[j]);
        let p = slots[j].0.duplicate();
        slots.set(j, (p, h));
        j = j + 1;
    }
}

/// `r` is the row of a kept process whose tick moved `cur`.
pub open spec fn row_matches(r: ProcessRow, slot: (ProcessInfo, ProcessHistory), cur: NetworkData) -> bool {
    &&& r.process@ == slot.0@
    &&& r.current_bytes_downloaded == cur.total_bytes_downloaded
    &&& r.current_bytes_uploaded == cur.total_bytes_uploaded
    &&& r.total_bytes_downloaded == slot.1.total_bytes_downloaded
    &&& r.total_bytes_uploaded == slot.1.total_bytes_uploaded
    &&& r.download_history@ == slot.1.download_history@
    &&& r.upload_history@ == slot.1.upload_history@
}

/// Rows in descending order of total bytes downloaded.
pub open spec fn rows_sorted(rows: Seq<ProcessRow>) -> bool {
    forall|i: int, j: int|
        0 <= i < j < rows.len() ==> rows[i].total_bytes_downloaded >= rows[j].total_bytes_downloaded
}

/// The sum of the current tick's bytes in one direction over some rows.
pub open spec fn rows_current_sum(rows: Seq<ProcessRow>, upload: bool) -> int
    decreases rows.len(),
{
    if rows.len() == 0 {
        0
    } else {
        rows_current_sum(rows.drop_last(), upload) + if upload {
            rows.last().current_bytes_uploaded as int
        } else {
            rows.last().current_bytes_downloaded as int
        }
    }
}

proof fn lemma_rows_sum_insert(s: Seq<ProcessRow>, pos: int, x: ProcessRow, upload: bool)
    requires
        0 <= pos <= s.len(),
    ensures
        rows_current_sum(s.insert(pos, x), upload) == rows_current_sum(s, upload) + if upload {
            x.current_bytes_uploaded as int
        } else {
            x.current_bytes_downloaded as int
        },
    decreases s.len(),
{
    let t = s.insert(pos, x);
    if pos == s.len() {
        assert(t.drop_last() =~= s);
    } else {
        assert(t.drop_last() =~= s.drop_last().insert(pos, x));
        lemma_rows_sum_insert(s.drop_last(), pos, x, upload);
    }
}

/// Some index below `n` of `src` holds `y`.
spec fn placed(src: Seq<int>, n: int, y: int) -> bool {
    exists|x: int| 0 <= x < n && #[trigger] src[x] == y
}

fn make_row(slot: &(ProcessInfo, ProcessHistory), cur: NetworkData) -> (r: ProcessRow)
    ensures
        row_matches(r, *slot, cur),
{
    ProcessRow {
        process: slot.0.duplicate(),
        current_bytes_downloaded: cur.total_bytes_downloaded,
        current_bytes_uploaded: cur.total_bytes_uploaded,
        total_bytes_downloaded: slot.1.total_bytes_downloaded,
        total_bytes_uploaded: slot.1.total_bytes_uploaded,
        download_history: copy_samples(&slot.1.download_history),
        upload_history: copy_samples(&slot.1.upload_history),
    }
}

/// The rows of all kept processes, in descending order of total bytes downloaded (equal
/// totals in the order of the slots), cut to the first `MAX_BANDWIDTH_ITEMS`.
fn build_rows(slots: &Vec<(ProcessInfo, ProcessHistory)>, current: &Vec<NetworkData>) -> (rows:
    Vec<ProcessRow>)
    requires
        current@.len() == slots@.len(),
        unique_keys(slots@),
    ensures
        rows@.len() == if slots@.len() <= MAX_BANDWIDTH_ITEMS {
            slots@.len()
        } else {
            MAX_BANDWIDTH_ITEMS as nat
        },
        rows_sorted(rows@),
        forall|x: int|
            0 <= x < rows@.len() ==> exists|y: int|
                0 <= y < slots@.len() && row_matches(#[trigger] rows@[x], slots@[y], current@[y]),
        forall|a: int, b: int| 0 <= a < b < rows@.len() ==> rows@[a].process@ != rows@[b].process@,
        forall|y: int|
            0 <= y < slots@.len() ==> (exists|x: int|
                0 <= x < rows@.len() && row_matches(rows@[x], #[trigger] slots@[y], current@[y]))
                || slots@[y].1.total_bytes_downloaded <= rows@[rows@.len()
                - 1].total_bytes_downloaded,
        slots@.len() <= MAX_BANDWIDTH_ITEMS ==> rows_current_sum(rows@, false) == data_sum(
            current@,
            false,
        ) && rows_current_sum(rows@, true) == data_sum(current@, true),
{
    let n = slots.len();
    let mut rows: Vec<ProcessRow> = Vec::new();
    let ghost mut src: Seq<int> = Seq::empty();
    let mut j: usize = 0;
    while j < n
        invariant
            n == slots@.len(),
            current@.len() == n,
            unique_keys(slots@),
            j <= n,
            rows@.len() == j,
            src.len() == j,
            rows_sorted(rows@),
            forall|x: int|
                0 <= x < j ==> 0 <= #[trigger] src[x] < j && row_matches(
                    rows@[x],
                    slots@[src[x]],
                    current@[src[x]],
                ),
            forall|a: int, b: int| 0 <= a < b < j ==> src[a] != src[b],
            forall|y: int| 0 <= y < j ==> #[trigger] placed(src, j as int, y),
            rows_current_sum(rows@, false) == data_sum(current@.subrange(0, j as int), false),
            rows_current_sum(rows@, true) == data_sum(current@.subrange(0, j as int), true),
        decreases n - j,
    {
        let row = make_row(&slots[j], current[j]);
        let mut pos: usize = 0;
        while pos < rows.len() && rows[pos].total_bytes_downloaded >= row.total_bytes_downloaded
            invariant
                pos <= rows@.len(),
                forall|x: int| 0 <= x < pos ==> rows@[x].total_bytes_downloaded >= row.total_bytes_downloaded,
            decreases rows@.len() - pos,
        {
            pos = pos + 1;
        }
        let ghost r0 = rows@;
        let ghost src0 = src;
        proof {
            lemma_rows_sum_insert(r0, pos as int, row, false);
            lemma_rows_sum_insert(r0, pos as int, row, true);
            assert(current@.subrange(0, j + 1).drop_last() =~= current@.subrange(0, j as int));
            src = src.insert(pos as int, j as int);
        }
        rows.insert(pos, row);
        j = j + 1;
        proof {
            assert forall|a: int, b: int| 0 <= a < b < rows@.len() implies rows@[a].total_bytes_downloaded
                >= rows@[b].total_bytes_downloaded by {
                if a < pos && b < pos {
                } else if a < pos && b == pos {
                } else if a < pos {
                    assert(rows@[b] == r0[b - 1]);
                } else if a == pos {
                    assert(rows@[b] == r0[b - 1]);
                    if pos < r0.len() {
                        assert(r0[pos as int].total_bytes_downloaded < row.total_bytes_downloaded);
                    }
                } else {
                    assert(rows@[a] == r0[a - 1] && rows@[b] == r0[b - 1]);
                }
            }
            assert forall|x: int|
                0 <= x < j implies 0 <= #[trigger] src[x] < j && row_matches(
                rows@[x],
                slots@[src[x]],
                current@[src[x]],
            ) by {
                if x < pos {
                    assert(src[x] == src0[x]);
                } else if x > pos {
                    assert(src[x] == src0[x - 1]);
                }
            }
            assert forall|a: int, b: int| 0 <= a < b < j implies src[a] != src[b] by {
                if a < pos && b > pos {
                    assert(src[b] == src0[b - 1]);
                } else if a > pos {
                    assert(src[a] == src0[a - 1] && src[b] == src0[b - 1]);
                } else if b == pos {
                    assert(src[a] == src0[a]);
                } else if a == pos {
                    assert(src[b] == src0[b - 1]);
                }
            }
            assert forall|y: int| 0 <= y < j implies #[trigger] placed(src, j as int, y) by {
                if y == j - 1 {
                    assert(src[pos as int] == y);
                } else {
                    assert(placed(src0, j - 1, y));
                    let x0 = choose|x: int| 0 <= x < j - 1 && #[trigger] src0[x] == y;
                    if x0 < pos {
                        assert(src[x0] == y);
                    } else {
                        assert(src[x0 + 1] == y);
                    }
                }
            }
        }
    }
    let ghost full = rows@;
    proof {
        assert(current@.subrange(0, n as int) =~= current@);
        assert forall|a: int, b: int| 0 <= a < b < full.len() implies full[a].process@ != full[b].process@ by {
            assert(slots@[src[a]].0@ != slots@[src[b]].0@) by {
                if src[a] < src[b] {
                } else {
                }
            }
        }
    }
    if rows.len() > MAX_BANDWIDTH_ITEMS {
        rows.truncate(MAX_BANDWIDTH_ITEMS);
    }
    proof {
        assert(rows@ =~= full.subrange(0, rows@.len() as int));
        assert forall|y: int|
            0 <= y < slots@.len() implies (exists|x: int|
                0 <= x < rows@.len() && row_matches(rows@[x], #[trigger] slots@[y], current@[y]))
                || slots@[y].1.total_bytes_downloaded <= rows@[rows@.len()
                - 1].total_bytes_downloaded by {
            assert(placed(src, n as int, y));
            let x = choose|x: int| 0 <= x < n && #[trigger] src[x] == y;
            if x < rows@.len() {
                assert(row_matches(rows@[x], slots@[y], current@[y]));
            } else {
                assert(full[x].total_bytes_downloaded <= full[rows@.len() - 1].total_bytes_downloaded);
            }
        }
        assert forall|x: int|
            0 <= x < rows@.len() implies exists|y: int|
                0 <= y < slots@.len() && row_matches(#[trigger] rows@[x], slots@[y], current@[y]) by {
            assert(row_matches(full[x], slots@[src[x]], current@[src[x]]));
        }
    }
    rows
}

/// The remembered unresolved sockets after `s` is noted: newest first, at most
/// `MAX_KNOWN_ORPHANS`.
pub open spec fn remember(cache: Seq<LocalSocket>, s: LocalSocket) -> Seq<LocalSocket> {
    let t = seq![s] + cache;
    if t.len() > MAX_KNOWN_ORPHANS {
        t.subrange(0, MAX_KNOWN_ORPHANS as int)
    } else {
        t
    }
}

/// The remembered sockets after a tick, and the sockets reported in it, in order: a
/// socket is reported when it cannot be resolved and is not remembered yet.
pub open spec fn orphan_scan(
    cache: Seq<LocalSocket>,
    ctp: Seq<(LocalSocket, ProcessInfo)>,
    u: Seq<(LocalSocket, ConnectionSample)>,
) -> (Seq<LocalSocket>, Seq<LocalSocket>)
    decreases u.len(),
{
    if u.len() == 0 {
        (cache, Seq::empty())
    } else {
        let (c, w) = orphan_scan(cache, ctp, u.drop_last());
        let s = u.last().0;
        if resolve(ctp, s) is None && !c.contains(s) {
            (remember(c, s), w.push(s))
        } else {
            (c, w)
        }
    }
}

/// The first entry of the process table with the port and protocol of `s`.
pub open spec fn port_match(ctp: Seq<(LocalSocket, ProcessInfo)>, s: LocalSocket) -> Option<
    (LocalSocket, (Seq<char>, u32)),
>
    decreases ctp.len(),
{
    if ctp.len() == 0 {
        None
    } else if ctp[0].0.port == s.port && ctp[0].0.protocol == s.protocol {
        Some((ctp[0].0, ctp[0].1@))
    } else {
        port_match(ctp.drop_first(), s)
    }
}

proof fn lemma_orphan_scan_facts(
    cache: Seq<LocalSocket>,
    ctp: Seq<(LocalSocket, ProcessInfo)>,
    u: Seq<(LocalSocket, ConnectionSample)>,
)
    requires
        cache.len() + u.len() <= MAX_KNOWN_ORPHANS,
    ensures
        orphan_scan(cache, ctp, u).0.len() <= cache.len() + u.len(),
        forall|x: LocalSocket| #[trigger] cache.contains(x) ==> orphan_scan(cache, ctp, u).0.contains(x),
        forall|x: LocalSocket|
            #[trigger] orphan_scan(cache, ctp, u).1.contains(x) ==> orphan_scan(cache, ctp, u).0.contains(x)
                && !cache.contains(x),
        orphan_scan(cache, ctp, u).1.no_duplicates(),
    decreases u.len(),
{
    if u.len() > 0 {
        let t = u.drop_last();
        lemma_orphan_scan_facts(cache, ctp, t);
        let c = orphan_scan(cache, ctp, t).0;
        let w = orphan_scan(cache, ctp, t).1;
        let s = u.last().0;
        assert(forall|x: LocalSocket| #[trigger] w.contains(x) ==> c.contains(x) && !cache.contains(x));
        assert(forall|x: LocalSocket| #[trigger] cache.contains(x) ==> c.contains(x));
        if resolve(ctp, s) is None && !c.contains(s) {
            let c1 = remember(c, s);
            assert(c1 == seq![s] + c);
            assert(c1[0] == s);
            assert forall|x: LocalSocket| c.contains(x) implies c1.contains(x) by {
                let j = choose|j: int| 0 <= j < c.len() && c[j] == x;
                assert(c1[j + 1] == x);
            }
            let w1 = w.push(s);
            assert forall|x: LocalSocket| w1.contains(x) implies c1.contains(x) && !cache.contains(x) by {
                let j = choose|j: int| 0 <= j < w1.len() && w1[j] == x;
                if j < w.len() {
                    assert(w[j] == x);
                    assert(w.contains(x));
                } else {
                    assert(x == s);
                    assert(c1[0] == x);
                    if cache.contains(x) {
                        assert(c.contains(x));
                    }
                }
            }
            assert forall|a: int, b: int| 0 <= a < b < w1.len() implies w1[a] != w1[b] by {
                assert(w1[a] == w[a]);
                if b == w.len() {
                    assert(w.contains(w[a]));
                    assert(c.contains(w[a]));
                } else {
                    assert(w1[b] == w[b]);
                }
            }
        }
    }
}

/// An unresolved socket is reported at most once within a tick, and a socket reported in
/// one tick is not reported again in the next one, as long as the remembered sockets and
/// the connections of both ticks together number at most `MAX_KNOWN_ORPHANS`.
pub proof fn lemma_orphan_reported_once(
    cache: Seq<LocalSocket>,
    table1: Seq<(LocalSocket, ProcessInfo)>,
    u1: Seq<(LocalSocket, ConnectionSample)>,
    table2: Seq<(LocalSocket, ProcessInfo)>,
    u2: Seq<(LocalSocket, ConnectionSample)>,
)
    requires
        cache.len() + u1.len() + u2.len() <= MAX_KNOWN_ORPHANS,
    ensures
        orphan_scan(cache, table1, u1).1.no_duplicates(),
        forall|x: LocalSocket|
            #[trigger] orphan_scan(cache, table1, u1).1.contains(x) ==> !orphan_scan(
                orphan_scan(cache, table1, u1).0,
                table2,
                u2,
            ).1.contains(x),
{
    lemma_orphan_scan_facts(cache, table1, u1);
    let c1 = orphan_scan(cache, table1, u1).0;
    lemma_orphan_scan_facts(c1, table2, u2);
    assert forall|x: LocalSocket|
        #[trigger] orphan_scan(cache, table1, u1).1.contains(x) implies !orphan_scan(
        c1,
        table2,
        u2,
    ).1.contains(x) by {
        assert(c1.contains(x));
        if orphan_scan(c1, table2, u2).1.contains(x) {
            assert(!c1.contains(x));
        }
    }
}

/// The entry of `port_match`, where its socket also carried traffic in the tick.
pub open spec fn lookalike_of(
    ctp: Seq<(LocalSocket, ProcessInfo)>,
    u: Seq<(LocalSocket, ConnectionSample)>,
    s: LocalSocket,
) -> Option<(LocalSocket, (Seq<char>, u32))> {
    match port_match(ctp, s) {
        Some(e) => if exists|i: int| 0 <= i < u.len() && (#[trigger] u[i]).0 == e.0 {
            Some(e)
        } else {
            None
        },
        None => None,
    }
}

/// The view of what a warning names as a lookalike.
pub open spec fn lookalike_view(l: Option<(LocalSocket, ProcessInfo)>) -> Option<
    (LocalSocket, (Seq<char>, u32)),
> {
    match l {
        Some(e) => Some((e.0, e.1@)),
        None => None,
    }
}

fn is_known(cache: &Vec<LocalSocket>, s: &LocalSocket) -> (r: bool)
    ensures
        r == cache@.contains(*s),
{
    let mut i: usize = 0;
    while i < cache.len()
        invariant
            i <= cache@.len(),
            forall|x: int| 0 <= x < i ==> cache@[x] != *s,
        decreases cache@.len() - i,
    {
        if cache[i] == *s {
            assert(cache@[i as int] == *s);
            return true;
        }
        i = i + 1;
    }
    false
}

fn find_lookalike(
    ctp: &Vec<(LocalSocket, ProcessInfo)>,
    util: &Vec<(LocalSocket, ConnectionSample)>,
    s: &LocalSocket,
) -> (r: Option<(LocalSocket, ProcessInfo)>)
    ensures
        lookalike_view(r) == lookalike_of(ctp@, util@, *s),
{
    let n = ctp.len();
    let mut i: usize = 0;
    assert(ctp@.subrange(0, n as int) =~= ctp@);
    while i < n
        invariant
            n == ctp@.len(),
            i <= n,
            port_match(ctp@, *s) == port_match(ctp@.subrange(i as int, n as int), *s),
        decreases n - i,
    {
        assert(ctp@.subrange(i as int, n as int).drop_first() =~= ctp@.subrange(i + 1, n as int));
        let e = &ctp[i];
        assert(ctp@.subrange(i as int, n as int)[0] == ctp@[i as int]);
        if e.0.port == s.port && e.0.protocol == s.protocol {
            assert(port_match(ctp@, *s) == Some((e.0, e.1@)));
            let mut x: usize = 0;
            while x < util.len()
                invariant
                    port_match(ctp@, *s) == Some((e.0, e.1@)),
                    x <= util@.len(),
                    forall|y: int| 0 <= y < x ==> util@[y].0 != e.0,
                decreases util@.len() - x,
            {
                if util[x].0 == e.0 {
                    assert(util@[x as int].0 == e.0);
                    return Some((e.0, e.1.duplicate()));
                }
                x = x + 1;
            }
            return None;
        }
        i = i + 1;
    }
    None
}

/// Notes the unresolved sockets of a tick and returns a warning for each one seen for the
/// first time.
fn note_orphans(
    cache: &mut Vec<LocalSocket>,
    ctp: &Vec<(LocalSocket, ProcessInfo)>,
    util: &Vec<(LocalSocket, ConnectionSample)>,
) -> (warnings: Vec<OrphanWarning>)
    requires
        old(cache)@.len() <= MAX_KNOWN_ORPHANS,
    ensures
        final(cache)@ == orphan_scan(old(cache)@, ctp@, util@).0,
        final(cache)@.len() <= MAX_KNOWN_ORPHANS,
        warnings@.len() == orphan_scan(old(cache)@, ctp@, util@).1.len(),
        forall|i: int|
            0 <= i < warnings@.len() ==> (#[trigger] warnings@[i]).socket == orphan_scan(
                old(cache)@,
                ctp@,
                util@,
            ).1[i] && lookalike_view(warnings@[i].lookalike) == lookalike_of(
                ctp@,
                util@,
                warnings@[i].socket,
            ),
{
    let ghost c0 = cache@;
    let mut warnings: Vec<OrphanWarning> = Vec::new();
    let mut i: usize = 0;
    assert(util@.subrange(0, 0) =~= Seq::<(LocalSocket, ConnectionSample)>::empty());
    while i < util.len()
        invariant
            i <= util@.len(),
            cache@ == orphan_scan(c0, ctp@, util@.subrange(0, i as int)).0,
            cache@.len() <= MAX_KNOWN_ORPHANS,
            warnings@.len() == orphan_scan(c0, ctp@, util@.subrange(0, i as int)).1.len(),
            forall|x: int|
                0 <= x < warnings@.len() ==> (#[trigger] warnings@[x]).socket == orphan_scan(
                    c0,
                    ctp@,
                    util@.subrange(0, i as int),
                ).1[x] && lookalike_view(warnings@[x].lookalike) == lookalike_of(
                    ctp@,
                    util@,
                    warnings@[x].socket,
                ),
        decreases util@.len() - i,
    {
        let ghost u1 = util@.subrange(0, i + 1);
        assert(u1.drop_last() =~= util@.subrange(0, i as int));
        let s = util[i].0;
        let unresolved = get_proc_info(ctp, &s).is_none();
        if unresolved && !is_known(cache, &s) {
            let ghost before = cache@;
            cache.insert(0, s);
            if cache.len() > MAX_KNOWN_ORPHANS {
                cache.truncate(MAX_KNOWN_ORPHANS);
            }
            assert(cache@ =~= remember(before, s));
            let lookalike = find_lookalike(ctp, util, &s);
            let ghost w0 = warnings@;
            warnings.push(OrphanWarning { socket: s, lookalike });
            assert forall|x: int| 0 <= x < warnings@.len() implies (#[trigger] warnings@[x]).socket
                == orphan_scan(c0, ctp@, u1).1[x] && lookalike_view(warnings@[x].lookalike)
                == lookalike_of(ctp@, util@, warnings@[x].socket) by {
                if x < w0.len() {
                    assert(warnings@[x] == w0[x]);
                }
            }
        }
        i = i + 1;
    }
    assert(util@.subrange(0, util@.len() as int) =~= util@);
    warnings
}

/// The history that a row carries.
pub open spec fn row_history(r: ProcessRow) -> HistoryView {
    HistoryView {
        total_bytes_downloaded: r.total_bytes_downloaded as int,
        total_bytes_uploaded: r.total_bytes_uploaded as int,
        download_history: r.download_history@,
        upload_history: r.upload_history@,
    }
}

/// A kept history, or the empty one for a process not kept yet.
pub open spec fn prior(h: Option<HistoryView>) -> HistoryView {
    match h {
        Some(h) => h,
        None => empty_history(),
    }
}

/// The bytes of a tick, in both directions, where neither sum exceeds `u128::MAX`.
pub fn tick_totals(network_utilization: &Vec<(LocalSocket, ConnectionSample)>) -> (r: Option<
    NetworkData,
>)
    ensures
        r is Some <==> tick_total(network_utilization@, false) <= u128::MAX && tick_total(
            network_utilization@,
            true,
        ) <= u128::MAX,
        r matches Some(t) ==> t.total_bytes_downloaded == tick_total(network_utilization@, false)
            && t.total_bytes_uploaded == tick_total(network_utilization@, true),
{
    let mut down: u128 = 0;
    let mut up: u128 = 0;
    let mut i: usize = 0;
    assert(network_utilization@.subrange(0, 0) =~= Seq::<(LocalSocket, ConnectionSample)>::empty());
    while i < network_utilization.len()
        invariant
            i <= network_utilization@.len(),
            down == tick_total(network_utilization@.subrange(0, i as int), false),
            up == tick_total(network_utilization@.subrange(0, i as int), true),
        decreases network_utilization@.len() - i,
    {
        let ghost u1 = network_utilization@.subrange(0, i + 1);
        assert(u1.drop_last() =~= network_utilization@.subrange(0, i as int));
        let c = network_utilization[i].1;
        proof {
            lemma_tick_total_prefix(network_utilization@, i + 1, false);
            lemma_tick_total_prefix(network_utilization@, i + 1, true);
        }
        if c.total_bytes_downloaded > u128::MAX - down || c.total_bytes_uploaded > u128::MAX - up {
            return None;
        }
        down = down + c.total_bytes_downloaded;
        up = up + c.total_bytes_uploaded;
        i = i + 1;
    }
    assert(network_utilization@.subrange(0, network_utilization@.len() as int)
        =~= network_utilization@);
    Some(NetworkData { total_bytes_downloaded: down, total_bytes_uploaded: up })
}

impl UIState {
    /// The history kept for the process `k`, if any.
    pub open spec fn history(&self, k: (Seq<char>, u32)) -> Option<HistoryView> {
        history_of(self.process_history@, k)
    }

    /// The number of processes kept.
    pub open spec fn process_count(&self) -> nat {
        self.process_history@.len()
    }

    /// The unresolved sockets already reported, newest first.
    pub open spec fn known_orphans(&self) -> Seq<LocalSocket> {
        self.known_orphan_sockets@
    }

    /// Each process is kept once; its two histories have the same length, at most
    /// `HISTORY_LENGTH`; its totals are within the state's totals; the remembered sockets
    /// and the rows are within their bounds, and the rows are in order.
    pub open spec fn wf(&self) -> bool {
        &&& unique_keys(self.process_history@)
        &&& forall|j: int|
            0 <= j < self.process_history@.len() ==> {
                let h = (#[trigger] self.process_history@[j]).1;
                &&& h.download_history@.len() == h.upload_history@.len()
                &&& h.download_history@.len() <= HISTORY_LENGTH
                &&& h.total_bytes_downloaded <= self.total_bytes_downloaded
                &&& h.total_bytes_uploaded <= self.total_bytes_uploaded
            }
        &&& self.known_orphan_sockets@.len() <= MAX_KNOWN_ORPHANS
        &&& self.process_rows@.len() <= MAX_BANDWIDTH_ITEMS
        &&& rows_sorted(self.process_rows@)
    }

    /// Takes in one tick: which process owns which socket, and what each connection moved.
    /// Every connection is accounted to its owner, or to `("<UNKNOWN>", 0)`; every kept
    /// process gets one sample in each history; the rows are rebuilt. Returns a warning for
    /// each unresolved socket that had not been reported before.
    pub fn update(
        &mut self,
        connections_to_procs: Vec<(LocalSocket, ProcessInfo)>,
        network_utilization: Vec<(LocalSocket, ConnectionSample)>,
    ) -> (warnings: Vec<OrphanWarning>)
        requires
            old(self).wf(),
            old(self).total_bytes_downloaded + tick_total(network_utilization@, false)
                <= u128::MAX,
            old(self).total_bytes_uploaded + tick_total(network_utilization@, true) <= u128::MAX,
        ensures
            final(self).wf(),
            final(self).interface_name == old(self).interface_name,
            final(self).unit_family == old(self).unit_family,
            final(self).total_bytes_downloaded == old(self).total_bytes_downloaded + tick_total(
                network_utilization@,
                false,
            ),
            final(self).total_bytes_uploaded == old(self).total_bytes_uploaded + tick_total(
                network_utilization@,
                true,
            ),
            // each kept or newly seen process advances by what it moved in this tick
            forall|k: (Seq<char>, u32)|
                #[trigger] final(self).history(k) == if old(self).history(k) is Some || is_owner(
                    connections_to_procs@,
                    network_utilization@,
                    k,
                ) {
                    Some(
                        advance(
                            prior(old(self).history(k)),
                            process_tick(connections_to_procs@, network_utilization@, k, false),
                            process_tick(connections_to_procs@, network_utilization@, k, true),
                        ),
                    )
                } else {
                    None
                },
            // histories stay aligned and bounded, and grow by at most one sample per tick
            forall|k: (Seq<char>, u32)|
                #[trigger] final(self).history(k) is Some ==> final(self).history(
                    k,
                ).unwrap().download_history.len() == final(self).history(
                    k,
                ).unwrap().upload_history.len() && final(self).history(
                    k,
                ).unwrap().download_history.len() <= HISTORY_LENGTH,
            forall|k: (Seq<char>, u32)|
                #[trigger] old(self).history(k) is Some ==> final(self).history(
                    k,
                ).unwrap().download_history.len() <= old(self).history(
                    k,
                ).unwrap().download_history.len() + 1,
            // the rows: one per kept process, largest download total first, at most
            // MAX_BANDWIDTH_ITEMS of them
            final(self).process_rows@.len() == if final(self).process_count()
                <= MAX_BANDWIDTH_ITEMS {
                final(self).process_count()
            } else {
                MAX_BANDWIDTH_ITEMS as nat
            },
            final(self).process_rows@.len() <= MAX_BANDWIDTH_ITEMS,
            rows_sorted(final(self).process_rows@),
            forall|x: int|
                0 <= x < final(self).process_rows@.len() ==> {
                    let r = #[trigger] final(self).process_rows@[x];
                    &&& final(self).history(r.process@) == Some(row_history(r))
                    &&& r.current_bytes_downloaded == process_tick(
                        connections_to_procs@,
                        network_utilization@,
                        r.process@,
                        false,
                    )
                    &&& r.current_bytes_uploaded == process_tick(
                        connections_to_procs@,
                        network_utilization@,
                        r.process@,
                        true,
                    )
                },
            forall|a: int, b: int|
                0 <= a < b < final(self).process_rows@.len() ==> final(self).process_rows@[a].process@
                    != final(self).process_rows@[b].process@,
            forall|k: (Seq<char>, u32)|
                #[trigger] final(self).history(k) is Some ==> (exists|x: int|
                    0 <= x < final(self).process_rows@.len()
                        && final(self).process_rows@[x].process@ == k) || final(self).history(
                    k,
                ).unwrap().total_bytes_downloaded <= final(self).process_rows@[final(self).process_rows@.len() - 1].total_bytes_downloaded,
            // no byte is lost to unresolved sockets
            final(self).process_count() <= MAX_BANDWIDTH_ITEMS ==> rows_current_sum(
                final(self).process_rows@,
                false,
            ) == tick_total(network_utilization@, false) && rows_current_sum(
                final(self).process_rows@,
                true,
            ) == tick_total(network_utilization@, true),
            // a tick without traffic keeps the totals and appends a zero to every history
            network_utilization@.len() == 0 ==> final(self).total_bytes_downloaded == old(self).total_bytes_downloaded && final(self).total_bytes_uploaded == old(self).total_bytes_uploaded && forall|k: (Seq<char>, u32)|
                #[trigger] final(self).history(k) == match old(self).history(k) {
                    Some(h) => Some(advance(h, 0, 0)),
                    None => None,
                },
            // unresolved sockets are reported once
            final(self).known_orphans() == orphan_scan(
                old(self).known_orphans(),
                connections_to_procs@,
                network_utilization@,
            ).0,
            warnings@.len() == orphan_scan(
                old(self).known_orphans(),
                connections_to_procs@,
                network_utilization@,
            ).1.len(),
            forall|i: int|
                0 <= i < warnings@.len() ==> (#[trigger] warnings@[i]).socket == orphan_scan(
                    old(self).known_orphans(),
                    connections_to_procs@,
                    network_utilization@,
                ).1[i] && lookalike_view(warnings@[i].lookalike) == lookalike_of(
                    connections_to_procs@,
                    network_utilization@,
                    warnings@[i].socket,
                ),
    {
        let ghost ctp = connections_to_procs@;
        let ghost u = network_utilization@;
        let ghost s0 = self.process_history@;
        let ghost t0 = (self.total_bytes_downloaded, self.total_bytes_uploaded);
        let warnings = note_orphans(
            &mut self.known_orphan_sockets,
            &connections_to_procs,
            &network_utilization,
        );
        proof {
            lemma_tick_total_nonneg(u, false);
            lemma_tick_total_nonneg(u, true);
        }
        let current = tally(&mut self.process_history, &connections_to_procs, &network_utilization);
        let ghost s1 = self.process_history@;
        let tick = match tick_totals(&network_utilization) {
            Some(t) => t,
            // not taken: the `requires` bounds both sums
            None => NetworkData { total_bytes_downloaded: 0, total_bytes_uploaded: 0 },
        };
        self.total_bytes_downloaded = self.total_bytes_downloaded + tick.total_bytes_downloaded;
        self.total_bytes_uploaded = self.total_bytes_uploaded + tick.total_bytes_uploaded;
        proof {
            assert forall|j: int| 0 <= j < current@.len() implies s1[j].1.total_bytes_downloaded
                + (#[trigger] current@[j]).total_bytes_downloaded <= t0.0 + tick_total(u, false)
                && s1[j].1.total_bytes_uploaded + current@[j].total_bytes_uploaded <= t0.1
                + tick_total(u, true) by {
                lemma_data_sum_le(current@, j, false);
                lemma_data_sum_le(current@, j, true);
                if j < s0.len() {
                    assert(s1[j] == s0[j]);
                }
            }
        }
        advance_all(&mut self.process_history, &current);
        let ghost s2 = self.process_history@;
        proof {
            assert(unique_keys(s2)) by {
                assert forall|a: int, b: int| 0 <= a < b < s2.len() implies s2[a].0@ != s2[b].0@ by {
                    assert(s2[a].0@ == s1[a].0@ && s2[b].0@ == s1[b].0@);
                }
            }
        }
        self.process_rows = build_rows(&self.process_history, &current);
        proof {
            // histories, key by key
            assert forall|k: (Seq<char>, u32)|
                #[trigger] self.history(k) == if history_of(s0, k) is Some || is_owner(ctp, u, k) {
                    Some(
                        advance(
                            prior(history_of(s0, k)),
                            process_tick(ctp, u, k, false),
                            process_tick(ctp, u, k, true),
                        ),
                    )
                } else {
                    None
                } by {
                if exists|j: int| 0 <= j < s2.len() && s2[j].0@ == k {
                    let j = choose|j: int| 0 <= j < s2.len() && s2[j].0@ == k;
                    lemma_history_of_index(s2, j);
                    assert(s2[j].0@ == s1[j].0@);
                    if j < s0.len() {
                        assert(s1[j] == s0[j]);
                        lemma_history_of_index(s0, j);
                    } else {
                        assert forall|x: int| 0 <= x < s0.len() implies s0[x].0@ != k by {
                            assert(s1[x] == s0[x]);
                        }
                        lemma_history_of_absent(s0, k);
                    }
                } else {
                    lemma_history_of_absent(s2, k);
                    assert forall|x: int| 0 <= x < s0.len() implies s0[x].0@ != k by {
                        assert(s1[x] == s0[x]);
                        assert(s2[x].0@ == s1[x].0@);
                    }
                    lemma_history_of_absent(s0, k);
                    if is_owner(ctp, u, k) {
                        let j = choose|j: int| 0 <= j < s1.len() && (#[trigger] s1[j]).0@ == k;
                        assert(s2[j].0@ == s1[j].0@);
                    }
                }
            }
            // well-formedness
            assert forall|j: int| 0 <= j < s2.len() implies {
                let h = (#[trigger] s2[j]).1;
                &&& h.download_history@.len() == h.upload_history@.len()
                &&& h.download_history@.len() <= HISTORY_LENGTH
                &&& h.total_bytes_downloaded <= self.total_bytes_downloaded
                &&& h.total_bytes_uploaded <= self.total_bytes_uploaded
            } by {
                if j < s0.len() {
                    assert(s1[j] == s0[j]);
                }
                lemma_data_sum_le(current@, j, false);
                lemma_data_sum_le(current@, j, true);
            }
            assert forall|k: (Seq<char>, u32)| #[trigger] self.history(k) is Some implies self.history(
                k,
            ).unwrap().download_history.len() == self.history(k).unwrap().upload_history.len()
                && self.history(k).unwrap().download_history.len() <= HISTORY_LENGTH by {
                lemma_history_of_member(s2, k);
            }
            // rows
            assert forall|x: int| 0 <= x < self.process_rows@.len() implies {
                let r = #[trigger] self.process_rows@[x];
                &&& self.history(r.process@) == Some(row_history(r))
                &&& r.current_bytes_downloaded == process_tick(ctp, u, r.process@, false)
                &&& r.current_bytes_uploaded == process_tick(ctp, u, r.process@, true)
            } by {
                let r = self.process_rows@[x];
                let y = choose|y: int|
                    0 <= y < s2.len() && row_matches(r, s2[y], current@[y]);
                lemma_history_of_index(s2, y);
                assert(s2[y].0@ == s1[y].0@);
            }
            assert forall|k: (Seq<char>, u32)| #[trigger] self.history(k) is Some implies (exists|x: int|
                0 <= x < self.process_rows@.len() && self.process_rows@[x].process@ == k)
                || self.history(k).unwrap().total_bytes_downloaded
                <= self.process_rows@[self.process_rows@.len() - 1].total_bytes_downloaded by {
                if forall|j: int| 0 <= j < s2.len() ==> s2[j].0@ != k {
                    lemma_history_of_absent(s2, k);
                }
                let y = choose|y: int| 0 <= y < s2.len() && s2[y].0@ == k;
                lemma_history_of_index(s2, y);
                if exists|x: int|
                    0 <= x < self.process_rows@.len() && row_matches(
                        self.process_rows@[x],
                        #[trigger] s2[y],
                        current@[y],
                    ) {
                    let x = choose|x: int|
                        0 <= x < self.process_rows@.len() && row_matches(
                            self.process_rows@[x],
                            #[trigger] s2[y],
                            current@[y],
                        );
                    assert(self.process_rows@[x].process@ == k);
                }
            }
            // a tick without traffic
            if u.len() == 0 {
                assert forall|k: (Seq<char>, u32)|
                    process_tick(ctp, u, k, false) == 0 && process_tick(ctp, u, k, true) == 0
                    && !is_owner(ctp, u, k) by {}
            }
        }
        warnings
    }

    /// An empty state: no process, no traffic, no rows.
    pub fn new(interface_name: Option<String>, unit_family: UnitFamily) -> (r: UIState)
        ensures
            r.wf(),
            r.interface_name == interface_name,
            r.unit_family == unit_family,
            r.total_bytes_downloaded == 0,
            r.total_bytes_uploaded == 0,
            r.process_rows@.len() == 0,
            r.process_count() == 0,
            forall|k: (Seq<char>, u32)| r.history(k) is None,
            r.known_orphans().len() == 0,
    {
        let r = UIState {
            interface_name,
            total_bytes_downloaded: 0,
            total_bytes_uploaded: 0,
            unit_family,
            process_rows: Vec::new(),
            process_history: Vec::new(),
            known_orphan_sockets: Vec::new(),
        };
        assert forall|k: (Seq<char>, u32)| r.history(k) is None by {
            lemma_history_of_absent(r.process_history@, k);
        }
        r
    }
}

impl Default for UIState {
    /// An empty state over all interfaces, in binary bytes.
    fn default() -> (r: UIState)
        ensures
            r.wf(),
            r.interface_name is None,
            r.unit_family == UnitFamily::BinBytes,
            r.total_bytes_downloaded == 0,
            r.total_bytes_uploaded == 0,
            r.process_rows@.len() == 0,
            r.process_count() == 0,
            r.known_orphans().len() == 0,
    {
        UIState::new(None, UnitFamily::BinBytes)
    }
}

} // verus!
