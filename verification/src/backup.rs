//! Backup snapshots of a target directory and their retention.

use crate::text::{
    chars_of, concat2, decimal, lemma_parse_of_decimal, lines_view, parse_u64_from, parse_u64_spec,
    starts_with, u64_to_string,
};
use vstd::prelude::*;
use vstd::seq_lib::to_multiset_insert;
use vstd::string::*;

verus! {

/// Every snapshot directory is named by this prefix and the time of its
/// creation, in seconds since the Unix epoch.
pub const BACKUP_PREFIX: &'static str = ".bn-loader-backup-";

/// A snapshot directory in a target: its name and the time in its name.
#[derive(Debug, PartialEq, Eq)]
pub struct Snapshot {
    pub name: String,
    pub timestamp: u64,
}

impl View for Snapshot {
    type V = (Seq<char>, u64);

    open spec fn view(&self) -> (Seq<char>, u64) {
        (self.name@, self.timestamp)
    }
}

/// One entry of a directory listing: its name and whether it is a
/// directory.
#[derive(Debug, PartialEq, Eq)]
pub struct DirEntry {
    pub name: String,
    pub is_dir: bool,
}

impl View for DirEntry {
    type V = (Seq<char>, bool);

    open spec fn view(&self) -> (Seq<char>, bool) {
        (self.name@, self.is_dir)
    }
}

/// The models of the entries of a listing.
pub open spec fn dir_view(entries: Seq<DirEntry>) -> Seq<(Seq<char>, bool)> {
    Seq::new(entries.len(), |i: int| entries[i]@)
}

/// The models of a sequence of snapshots.
pub open spec fn snapshots_view(snaps: Seq<Snapshot>) -> Seq<(Seq<char>, u64)> {
    Seq::new(snaps.len(), |i: int| snaps[i]@)
}

/// The name of the snapshot taken at the given time.
pub open spec fn backup_name(timestamp: u64) -> Seq<char> {
    BACKUP_PREFIX@ + decimal(timestamp as nat)
}

/// The time in a snapshot's name; nothing for any other name.
pub open spec fn backup_timestamp(name: Seq<char>) -> Option<u64> {
    if name.len() >= BACKUP_PREFIX@.len() && name.take(BACKUP_PREFIX@.len() as int)
        == BACKUP_PREFIX@ {
        parse_u64_spec(name.skip(BACKUP_PREFIX@.len() as int))
    } else {
        None
    }
}

/// The name of a snapshot holds the time it was made from.
pub proof fn lemma_backup_name_round_trip(timestamp: u64)
    ensures
        backup_timestamp(backup_name(timestamp)) == Some(timestamp),
{
    let name = backup_name(timestamp);
    let n = BACKUP_PREFIX@.len() as int;
    assert(name.take(n) =~= BACKUP_PREFIX@);
    assert(name.skip(n) =~= decimal(timestamp as nat));
    lemma_parse_of_decimal(timestamp);
}

/// The snapshots among the first `n` entries of a listing, in the order
/// of the listing: the directories whose name holds a time.
pub open spec fn snapshots(entries: Seq<(Seq<char>, bool)>, n: nat) -> Seq<(Seq<char>, u64)>
    decreases n,
{
    if n == 0 || n > entries.len() {
        Seq::empty()
    } else {
        let before = snapshots(entries, (n - 1) as nat);
        let entry = entries[n - 1];
        match backup_timestamp(entry.0) {
            Some(t) => if entry.1 {
                before.push((entry.0, t))
            } else {
                before
            },
            None => before,
        }
    }
}

/// Where a snapshot of the given time goes into a sequence ordered from
/// newest to oldest: before the first older one at or after `from`, and so
/// behind every one of the same time.
pub open spec fn slot(sorted: Seq<(Seq<char>, u64)>, timestamp: u64, from: nat) -> nat
    decreases sorted.len() - from,
{
    if from >= sorted.len() {
        sorted.len()
    } else if sorted[from as int].1 < timestamp {
        from
    } else {
        slot(sorted, timestamp, from + 1)
    }
}

/// The first `n` snapshots ordered from newest to oldest; snapshots of the
/// same time keep their order.
pub open spec fn newest_first(snaps: Seq<(Seq<char>, u64)>, n: nat) -> Seq<(Seq<char>, u64)>
    decreases n,
{
    if n == 0 || n > snaps.len() {
        Seq::empty()
    } else {
        let before = newest_first(snaps, (n - 1) as nat);
        before.insert(slot(before, snaps[n - 1].1, 0) as int, snaps[n - 1])
    }
}

/// The names of a sequence of snapshots.
pub open spec fn snapshot_names(snaps: Seq<(Seq<char>, u64)>) -> Seq<Seq<char>> {
    Seq::new(snaps.len(), |i: int| snaps[i].0)
}

/// The snapshots that retention removes, newest first: with a limit of
/// zero none, else all but the `retention` newest.
pub open spec fn prune_list(entries: Seq<(Seq<char>, bool)>, retention: nat) -> Seq<Seq<char>> {
    let all = snapshots(entries, entries.len());
    if retention == 0 || retention >= all.len() {
        Seq::empty()
    } else {
        snapshot_names(newest_first(all, all.len()).skip(retention as int))
    }
}

/// Whether a sequence of snapshots runs from newest to oldest.
pub open spec fn descending(snaps: Seq<(Seq<char>, u64)>) -> bool {
    forall|i: int, j: int|
        0 <= i < j < snaps.len() ==> (#[trigger] snaps[i]).1 >= (#[trigger] snaps[j]).1
}

proof fn lemma_slot(sorted: Seq<(Seq<char>, u64)>, timestamp: u64, from: nat)
    requires
        from <= sorted.len(),
    ensures
        from <= slot(sorted, timestamp, from) <= sorted.len(),
        forall|i: int|
            from <= i < slot(sorted, timestamp, from) ==> (#[trigger] sorted[i]).1 >= timestamp,
        slot(sorted, timestamp, from) < sorted.len() ==> sorted[slot(
            sorted,
            timestamp,
            from,
        ) as int].1 < timestamp,
    decreases sorted.len() - from,
{
    if from < sorted.len() && sorted[from as int].1 >= timestamp {
        lemma_slot(sorted, timestamp, from + 1);
    }
}

/// Ordering the snapshots loses none and adds none, and the result runs
/// from newest to oldest.
#[verifier::spinoff_prover]
#[verifier::rlimit(40)]
pub proof fn lemma_newest_first(snaps: Seq<(Seq<char>, u64)>, n: nat)
    requires
        n <= snaps.len(),
    ensures
        newest_first(snaps, n).len() == n,
        descending(newest_first(snaps, n)),
        newest_first(snaps, n).to_multiset() == snaps.take(n as int).to_multiset(),
    decreases n,
{
    if n == 0 {
        assert(snaps.take(0) =~= Seq::empty());
    } else {
        let before = newest_first(snaps, (n - 1) as nat);
        lemma_newest_first(snaps, (n - 1) as nat);
        let x = snaps[n - 1];
        let at = slot(before, x.1, 0) as int;
        lemma_slot(before, x.1, 0);
        let after = before.insert(at, x);
        assert forall|i: int, j: int| 0 <= i < j < after.len() implies (#[trigger] after[i]).1 >= (
        #[trigger] after[j]).1 by {
            if j < at {
                assert(after[i] == before[i] && after[j] == before[j]);
            } else if j == at {
                assert(after[i] == before[i]);
            } else if i < at {
                assert(after[i] == before[i] && after[j] == before[j - 1]);
            } else if i == at {
                assert(after[j] == before[j - 1]);
                assert(before[at].1 >= before[j - 1].1 || at == j - 1);
            } else {
                assert(after[i] == before[i - 1] && after[j] == before[j - 1]);
            }
        }
        to_multiset_insert(before, at, x);
        assert(snaps.take(n as int) =~= snaps.take(n - 1).push(x));
        vstd::seq_lib::to_multiset_build(snaps.take(n - 1), x);
    }
}

/// What retention keeps and what it removes: with a limit of `retention`,
/// above zero, the snapshots ordered from newest to oldest are cut after
/// the first `retention`. The ordered sequence holds each snapshot of the
/// listing once; what is kept is no more than the limit, and no kept
/// snapshot is older than a removed one.
pub proof fn lemma_retention_keeps_newest(entries: Seq<(Seq<char>, bool)>, retention: nat)
    requires
        retention > 0,
    ensures
        ({
            let all = snapshots(entries, entries.len());
            let ordered = newest_first(all, all.len());
            let kept = ordered.take(if retention < all.len() {
                retention as int
            } else {
                all.len() as int
            });
            &&& ordered.to_multiset() == all.to_multiset()
            &&& prune_list(entries, retention) == snapshot_names(ordered.skip(kept.len() as int))
            &&& kept.len() <= retention
            &&& kept.len() + prune_list(entries, retention).len() == all.len()
            &&& forall|i: int, j: int|
                0 <= i < kept.len() && kept.len() <= j < ordered.len() ==> (#[trigger] ordered[i]).1
                    >= (#[trigger] ordered[j]).1
        }),
{
    let all = snapshots(entries, entries.len());
    lemma_newest_first(all, all.len());
    assert(all.take(all.len() as int) =~= all);
    let ordered = newest_first(all, all.len());
    if retention >= all.len() {
        assert(snapshot_names(ordered.skip(all.len() as int)) =~= Seq::<Seq<char>>::empty());
    }
}

proof fn lemma_snapshots_members(entries: Seq<(Seq<char>, bool)>, n: nat, i: int)
    requires
        n <= entries.len(),
        0 <= i < snapshots(entries, n).len(),
    ensures
        backup_timestamp(snapshots(entries, n)[i].0) == Some(snapshots(entries, n)[i].1),
        exists|j: int| 0 <= j < n && #[trigger] entries[j] == (snapshots(entries, n)[i].0, true),
    decreases n,
{
    if n > 0 {
        let before = snapshots(entries, (n - 1) as nat);
        if i < before.len() {
            lemma_snapshots_members(entries, (n - 1) as nat, i);
            let j = choose|j: int| 0 <= j < n - 1 && #[trigger] entries[j] == (before[i].0, true);
            assert(entries[j] == (snapshots(entries, n)[i].0, true));
        } else {
            assert(entries[n - 1] == (snapshots(entries, n)[i].0, true));
        }
    }
}

/// Each directory of the listing whose name holds a time is among the
/// snapshots.
pub proof fn lemma_snapshots_complete(entries: Seq<(Seq<char>, bool)>, n: nat, j: int)
    requires
        n <= entries.len(),
        0 <= j < n,
        entries[j].1,
        backup_timestamp(entries[j].0) is Some,
    ensures
        snapshots(entries, n).contains((entries[j].0, backup_timestamp(entries[j].0)->0)),
    decreases n,
{
    let all = snapshots(entries, n);
    let before = snapshots(entries, (n - 1) as nat);
    let wanted = (entries[j].0, backup_timestamp(entries[j].0)->0);
    if j < n - 1 {
        lemma_snapshots_complete(entries, (n - 1) as nat, j);
        let i = choose|i: int| 0 <= i < before.len() && before[i] == wanted;
        assert(all[i] == wanted);
    } else {
        assert(all =~= before.push(wanted));
        assert(all[before.len() as int] == wanted);
    }
}

/// Only snapshots are removed: every name that retention removes is the
/// name of a directory of the listing, and holds a time.
pub proof fn lemma_prune_list_members(
    entries: Seq<(Seq<char>, bool)>,
    retention: nat,
    name: Seq<char>,
)
    requires
        prune_list(entries, retention).contains(name),
    ensures
        backup_timestamp(name) is Some,
        entries.contains((name, true)),
{
    let all = snapshots(entries, entries.len());
    let ordered = newest_first(all, all.len());
    lemma_newest_first(all, all.len());
    assert(all.take(all.len() as int) =~= all);
    let doomed = prune_list(entries, retention);
    let i = choose|i: int| 0 <= i < doomed.len() && doomed[i] == name;
    let snap = ordered[retention + i];
    assert(ordered.skip(retention as int)[i] == snap);
    assert(snap.0 == name);
    vstd::seq_lib::to_multiset_contains(ordered, snap);
    vstd::seq_lib::to_multiset_contains(all, snap);
    assert(ordered.contains(snap));
    let k = choose|k: int| 0 <= k < all.len() && all[k] == snap;
    lemma_snapshots_members(entries, entries.len(), k);
}

proof fn lemma_snapshots_prefix(a: Seq<(Seq<char>, bool)>, b: Seq<(Seq<char>, bool)>, n: nat)
    requires
        n <= a.len(),
        n <= b.len(),
        a.take(n as int) == b.take(n as int),
    ensures
        snapshots(a, n) == snapshots(b, n),
    decreases n,
{
    if n > 0 {
        assert(a.take(n - 1) =~= a.take(n as int).take(n - 1));
        assert(b.take(n - 1) =~= b.take(n as int).take(n - 1));
        lemma_snapshots_prefix(a, b, (n - 1) as nat);
        assert(a[n - 1] == a.take(n as int)[n - 1]);
        assert(b[n - 1] == b.take(n as int)[n - 1]);
    }
}

proof fn lemma_newest_first_prefix(a: Seq<(Seq<char>, u64)>, b: Seq<(Seq<char>, u64)>, n: nat)
    requires
        n <= a.len(),
        n <= b.len(),
        a.take(n as int) == b.take(n as int),
    ensures
        newest_first(a, n) == newest_first(b, n),
    decreases n,
{
    if n > 0 {
        assert(a.take(n - 1) =~= a.take(n as int).take(n - 1));
        assert(b.take(n - 1) =~= b.take(n as int).take(n - 1));
        lemma_newest_first_prefix(a, b, (n - 1) as nat);
        assert(a[n - 1] == a.take(n as int)[n - 1]);
        assert(b[n - 1] == b.take(n as int)[n - 1]);
    }
}

/// The snapshots of a listing, ordered from newest to oldest.
pub open spec fn ordered_snapshots(entries: Seq<(Seq<char>, bool)>) -> Seq<(Seq<char>, u64)> {
    newest_first(snapshots(entries, entries.len()), snapshots(entries, entries.len()).len())
}

/// Each ordered snapshot is a directory of the listing, with the time in
/// its name.
pub proof fn lemma_ordered_members(entries: Seq<(Seq<char>, bool)>, i: int)
    requires
        0 <= i < ordered_snapshots(entries).len(),
    ensures
        backup_timestamp(ordered_snapshots(entries)[i].0) == Some(ordered_snapshots(entries)[i].1),
        entries.contains((ordered_snapshots(entries)[i].0, true)),
{
    let all = snapshots(entries, entries.len());
    let ordered = ordered_snapshots(entries);
    lemma_newest_first(all, all.len());
    assert(all.take(all.len() as int) =~= all);
    let snap = ordered[i];
    vstd::seq_lib::to_multiset_contains(ordered, snap);
    vstd::seq_lib::to_multiset_contains(all, snap);
    assert(ordered.contains(snap));
    let k = choose|k: int| 0 <= k < all.len() && all[k] == snap;
    lemma_snapshots_members(entries, entries.len(), k);
}

/// A snapshot newer than all that are listed goes to the front: with it
/// listed last, the ordered snapshots are the new one and then the old ones
/// in their order.
#[verifier::spinoff_prover]
#[verifier::rlimit(40)]
pub proof fn lemma_new_snapshot_goes_first(old: Seq<(Seq<char>, bool)>, timestamp: u64)
    requires
        forall|i: int|
            0 <= i < old.len() && (#[trigger] old[i]).1 && backup_timestamp(old[i].0) is Some
                ==> backup_timestamp(old[i].0)->0 < timestamp,
    ensures
        ordered_snapshots(old.push((backup_name(timestamp), true))) == seq![
            (backup_name(timestamp), timestamp),
        ] + ordered_snapshots(old),
{
    let name = backup_name(timestamp);
    let entries = old.push((name, true));
    lemma_backup_name_round_trip(timestamp);
    assert(entries.take(old.len() as int) =~= old);
    assert(old.take(old.len() as int) =~= old);
    lemma_snapshots_prefix(entries, old, old.len());
    let old_all = snapshots(old, old.len());
    let all = snapshots(entries, entries.len());
    assert(all == old_all.push((name, timestamp)));
    assert(all.take(old_all.len() as int) =~= old_all);
    assert(old_all.take(old_all.len() as int) =~= old_all);
    lemma_newest_first_prefix(all, old_all, old_all.len());
    let prev = ordered_snapshots(old);
    lemma_newest_first(old_all, old_all.len());
    if prev.len() > 0 {
        lemma_ordered_members(old, 0);
        let j = choose|j: int| 0 <= j < old.len() && old[j] == (prev[0].0, true);
        assert(old[j].1);
    }
    assert(slot(prev, timestamp, 0) == 0);
    assert(prev.insert(0, (name, timestamp)) =~= seq![(name, timestamp)] + prev);
}

/// A snapshot newer than all that are listed is not the one to go: with
/// a limit above zero, retention removes only old snapshots.
#[verifier::spinoff_prover]
#[verifier::rlimit(40)]
pub proof fn lemma_new_snapshot_is_kept(
    old: Seq<(Seq<char>, bool)>,
    timestamp: u64,
    retention: nat,
)
    requires
        retention > 0,
        forall|i: int| 0 <= i < old.len() ==> (#[trigger] old[i]).0 != backup_name(timestamp),
        forall|i: int|
            0 <= i < old.len() && (#[trigger] old[i]).1 && backup_timestamp(old[i].0) is Some
                ==> backup_timestamp(old[i].0)->0 < timestamp,
    ensures
        !prune_list(old.push((backup_name(timestamp), true)), retention).contains(
            backup_name(timestamp),
        ),
        prune_list(old.push((backup_name(timestamp), true)), retention) == (if retention
            <= ordered_snapshots(old).len() {
            snapshot_names(ordered_snapshots(old).skip(retention - 1))
        } else {
            Seq::empty()
        }),
{
    let name = backup_name(timestamp);
    let entries = old.push((name, true));
    lemma_new_snapshot_goes_first(old, timestamp);
    let prev = ordered_snapshots(old);
    let ordered = ordered_snapshots(entries);
    let all = snapshots(entries, entries.len());
    lemma_newest_first(all, all.len());
    let old_all = snapshots(old, old.len());
    lemma_newest_first(old_all, old_all.len());
    let doomed = prune_list(entries, retention);
    if retention > prev.len() {
    } else if retention == prev.len() {
        assert(ordered.skip(retention as int) =~= prev.skip(retention - 1));
    } else {
        assert(ordered.skip(retention as int) =~= prev.skip(retention - 1));
    }
    if doomed.contains(name) {
        let i = choose|i: int| 0 <= i < doomed.len() && doomed[i] == name;
        let at = retention - 1 + i;
        assert(prev.skip(retention - 1)[i] == prev[at]);
        lemma_ordered_members(old, at);
        let j = choose|j: int| 0 <= j < old.len() && old[j] == (prev[at].0, true);
        assert(old[j].0 == name);
    }
}

/// Whether the times of a sequence of snapshots fall strictly.
pub open spec fn strictly_descending(snaps: Seq<(Seq<char>, u64)>) -> bool {
    forall|i: int, j: int|
        0 <= i < j < snaps.len() ==> (#[trigger] snaps[i]).1 > (#[trigger] snaps[j]).1
}

/// Two sequences of strictly falling times that hold the same snapshots
/// are the same sequence.
#[verifier::spinoff_prover]
#[verifier::rlimit(40)]
pub proof fn lemma_sorted_unique(a: Seq<(Seq<char>, u64)>, b: Seq<(Seq<char>, u64)>)
    requires
        strictly_descending(a),
        strictly_descending(b),
        forall|x: (Seq<char>, u64)| a.contains(x) <==> b.contains(x),
    ensures
        a == b,
    decreases a.len(),
{
    if a.len() == 0 {
        if b.len() > 0 {
            assert(b.contains(b[0]));
        }
        assert(a =~= b);
    } else {
        assert(a.contains(a[0]));
        assert(b.contains(a[0]));
        let p = choose|p: int| 0 <= p < b.len() && b[p] == a[0];
        assert(b.contains(b[0]));
        assert(a.contains(b[0]));
        let q = choose|q: int| 0 <= q < a.len() && a[q] == b[0];
        assert(q == 0);
        let at = a.drop_first();
        let bt = b.drop_first();
        assert forall|x: (Seq<char>, u64)| at.contains(x) <==> bt.contains(x) by {
            if at.contains(x) {
                let i = choose|i: int| 0 <= i < at.len() && at[i] == x;
                assert(a[i + 1] == x);
                assert(a.contains(x));
                let j = choose|j: int| 0 <= j < b.len() && b[j] == x;
                assert(j != 0);
                assert(bt[j - 1] == x);
            }
            if bt.contains(x) {
                let i = choose|i: int| 0 <= i < bt.len() && bt[i] == x;
                assert(b[i + 1] == x);
                assert(b.contains(x));
                let j = choose|j: int| 0 <= j < a.len() && a[j] == x;
                assert(j != 0);
                assert(at[j - 1] == x);
            }
        }
        assert(strictly_descending(at)) by {
            assert forall|i: int, j: int| 0 <= i < j < at.len() implies (#[trigger] at[i]).1 > (
            #[trigger] at[j]).1 by {
                assert(at[i] == a[i + 1] && at[j] == a[j + 1]);
            }
        }
        assert(strictly_descending(bt)) by {
            assert forall|i: int, j: int| 0 <= i < j < bt.len() implies (#[trigger] bt[i]).1 > (
            #[trigger] bt[j]).1 by {
                assert(bt[i] == b[i + 1] && bt[j] == b[j + 1]);
            }
        }
        lemma_sorted_unique(at, bt);
        assert(a =~= seq![a[0]] + at);
        assert(b =~= seq![b[0]] + bt);
    }
}

/// Whether no name is listed twice.
pub open spec fn distinct_names(entries: Seq<(Seq<char>, bool)>) -> bool {
    forall|i: int, j: int|
        0 <= i < j < entries.len() ==> (#[trigger] entries[i]).0 != (#[trigger] entries[j]).0
}

proof fn lemma_snapshots_distinct(entries: Seq<(Seq<char>, bool)>, n: nat)
    requires
        n <= entries.len(),
        distinct_names(entries),
    ensures
        snapshots(entries, n).no_duplicates(),
    decreases n,
{
    if n > 0 {
        let before = snapshots(entries, (n - 1) as nat);
        let all = snapshots(entries, n);
        lemma_snapshots_distinct(entries, (n - 1) as nat);
        if all.len() > before.len() {
            assert(all =~= before.push(all.last()));
            assert forall|i: int| 0 <= i < before.len() implies before[i] != all.last() by {
                lemma_snapshots_members(entries, (n - 1) as nat, i);
                let j = choose|j: int|
                    0 <= j < n - 1 && #[trigger] entries[j] == (before[i].0, true);
                assert(entries[j].0 != entries[n - 1].0);
            }
        }
    }
}

/// Where no name is listed twice, no snapshot occurs twice among the
/// ordered snapshots.
pub proof fn lemma_ordered_no_duplicates(entries: Seq<(Seq<char>, bool)>)
    requires
        distinct_names(entries),
    ensures
        ordered_snapshots(entries).no_duplicates(),
{
    let all = snapshots(entries, entries.len());
    lemma_snapshots_distinct(entries, entries.len());
    lemma_newest_first(all, all.len());
    assert(all.take(all.len() as int) =~= all);
    all.lemma_multiset_has_no_duplicates();
    ordered_snapshots(entries).lemma_multiset_has_no_duplicates_conv();
}

/// The snapshots taken at the times from position `lo` up to, but not
/// including, position `hi`, newest first.
pub open spec fn recent(times: Seq<u64>, lo: int, hi: int) -> Seq<(Seq<char>, u64)> {
    Seq::new(
        if hi > lo {
            (hi - lo) as nat
        } else {
            0
        },
        |i: int| (backup_name(times[hi - 1 - i]), times[hi - 1 - i]),
    )
}

/// Where the snapshot directories of a listing are exactly those taken at
/// a run of rising times, ordering them gives that run backwards.
#[verifier::spinoff_prover]
#[verifier::rlimit(40)]
pub proof fn lemma_ordered_is_recent(
    entries: Seq<(Seq<char>, bool)>,
    times: Seq<u64>,
    lo: int,
    hi: int,
)
    requires
        0 <= lo <= hi <= times.len(),
        distinct_names(entries),
        forall|i: int, j: int| lo <= i < j < hi ==> times[i] < times[j],
        forall|j: int| lo <= j < hi ==> entries.contains((backup_name(#[trigger] times[j]), true)),
        forall|i: int|
            0 <= i < entries.len() && (#[trigger] entries[i]).1 && backup_timestamp(
                entries[i].0,
            ) is Some ==> exists|j: int| lo <= j < hi && entries[i].0 == backup_name(times[j]),
    ensures
        ordered_snapshots(entries) == recent(times, lo, hi),
{
    let all = snapshots(entries, entries.len());
    let prev = ordered_snapshots(entries);
    let want = recent(times, lo, hi);
    lemma_newest_first(all, all.len());
    assert(all.take(all.len() as int) =~= all);
    lemma_ordered_no_duplicates(entries);
    assert forall|x: (Seq<char>, u64)| prev.contains(x) implies want.contains(x) by {
        let i = choose|i: int| 0 <= i < prev.len() && prev[i] == x;
        lemma_ordered_members(entries, i);
        let e = choose|e: int| 0 <= e < entries.len() && entries[e] == (x.0, true);
        assert(entries[e].1);
        let j = choose|j: int| lo <= j < hi && entries[e].0 == backup_name(times[j]);
        lemma_backup_name_round_trip(times[j]);
        assert(want[hi - 1 - j] == x);
    }
    assert forall|x: (Seq<char>, u64)| want.contains(x) implies prev.contains(x) by {
        let i = choose|i: int| 0 <= i < want.len() && want[i] == x;
        let j = hi - 1 - i;
        assert(entries.contains((backup_name(times[j]), true)));
        let e = choose|e: int| 0 <= e < entries.len() && entries[e] == (
            backup_name(times[j]),
            true,
        );
        lemma_backup_name_round_trip(times[j]);
        lemma_snapshots_complete(entries, entries.len(), e);
        vstd::seq_lib::to_multiset_contains(all, x);
        vstd::seq_lib::to_multiset_contains(prev, x);
    }
    assert(strictly_descending(prev)) by {
        assert forall|i: int, j: int| 0 <= i < j < prev.len() implies (#[trigger] prev[i]).1 > (
        #[trigger] prev[j]).1 by {
            if prev[i].1 == prev[j].1 {
                assert(prev.contains(prev[i]));
                assert(prev.contains(prev[j]));
                let a = choose|a: int| 0 <= a < want.len() && want[a] == prev[i];
                let b = choose|b: int| 0 <= b < want.len() && want[b] == prev[j];
                assert(times[hi - 1 - a] == times[hi - 1 - b]);
                assert(a == b) by {
                    if a < b {
                        assert(times[hi - 1 - b] < times[hi - 1 - a]);
                    }
                    if b < a {
                        assert(times[hi - 1 - a] < times[hi - 1 - b]);
                    }
                }
                assert(prev[i] == prev[j]);
            }
        }
    }
    assert(strictly_descending(want)) by {
        assert forall|i: int, j: int| 0 <= i < j < want.len() implies (#[trigger] want[i]).1 > (
        #[trigger] want[j]).1 by {
            assert(times[hi - 1 - j] < times[hi - 1 - i]);
        }
    }
    lemma_sorted_unique(prev, want);
}

/// Where the listing holds the snapshots taken at a run of rising times,
/// and every other snapshot in it is older than the run, the ordered
/// snapshots begin with that run backwards.
#[verifier::spinoff_prover]
#[verifier::rlimit(40)]
pub proof fn lemma_ordered_starts_with_recent(
    entries: Seq<(Seq<char>, bool)>,
    times: Seq<u64>,
    lo: int,
    hi: int,
    m: nat,
)
    requires
        0 <= lo <= hi <= times.len(),
        m <= hi - lo,
        distinct_names(entries),
        forall|i: int, j: int| lo <= i < j < hi ==> times[i] < times[j],
        forall|j: int| lo <= j < hi ==> entries.contains((backup_name(#[trigger] times[j]), true)),
        forall|i: int|
            0 <= i < entries.len() && (#[trigger] entries[i]).1 && backup_timestamp(
                entries[i].0,
            ) is Some ==> (exists|j: int| lo <= j < hi && entries[i].0 == backup_name(times[j]))
                || backup_timestamp(entries[i].0)->0 < times[lo],
    ensures
        ordered_snapshots(entries).len() >= m,
        forall|i: int|
            0 <= i < m ==> #[trigger] ordered_snapshots(entries)[i] == recent(times, lo, hi)[i],
    decreases m,
{
    if m > 0 {
        let k = (m - 1) as nat;
        lemma_ordered_starts_with_recent(entries, times, lo, hi, k);
        let all = snapshots(entries, entries.len());
        let prev = ordered_snapshots(entries);
        let want = recent(times, lo, hi);
        lemma_newest_first(all, all.len());
        assert(all.take(all.len() as int) =~= all);
        lemma_ordered_no_duplicates(entries);
        let x = want[k as int];
        let jx = hi - 1 - k;
        assert(x == (backup_name(times[jx]), times[jx]));
        assert(entries.contains((backup_name(times[jx]), true)));
        let e = choose|e: int| 0 <= e < entries.len() && entries[e] == (backup_name(times[jx]), true);
        lemma_backup_name_round_trip(times[jx]);
        lemma_snapshots_complete(entries, entries.len(), e);
        vstd::seq_lib::to_multiset_contains(all, x);
        vstd::seq_lib::to_multiset_contains(prev, x);
        let p = choose|p: int| 0 <= p < prev.len() && prev[p] == x;
        if p < k {
            assert(prev[p] == want[p]);
            assert(times[hi - 1 - p] == times[jx]);
            assert(times[jx] < times[hi - 1 - p]);
        }
        if p > k {
            let y = prev[k as int];
            lemma_ordered_members(entries, k as int);
            let f = choose|f: int| 0 <= f < entries.len() && entries[f] == (y.0, true);
            assert(entries[f].1);
            assert(y.1 >= x.1);
            assert(times[lo] <= times[jx]) by {
                if lo < jx {
                    assert(times[lo] < times[jx]);
                }
            }
            let j = choose|j: int| lo <= j < hi && entries[f].0 == backup_name(times[j]);
            lemma_backup_name_round_trip(times[j]);
            assert(y == (backup_name(times[j]), times[j]));
            assert(j >= jx) by {
                if j < jx {
                    assert(times[j] < times[jx]);
                }
            }
            let i = hi - 1 - j;
            assert(want[i] == y);
            if i < k {
                assert(prev[i] == want[i]);
                assert(prev[i] == prev[k as int]);
            } else {
                assert(prev[k as int] == prev[p]);
            }
            assert(false);
        }
        assert forall|i: int| 0 <= i < m implies #[trigger] prev[i] == want[i] by {
            if i == k {
                assert(p == k);
            }
        }
    }
}

/// Each snapshot directory of the listing is among the ordered snapshots.
pub proof fn lemma_ordered_complete(entries: Seq<(Seq<char>, bool)>, e: int)
    requires
        0 <= e < entries.len(),
        entries[e].1,
        backup_timestamp(entries[e].0) is Some,
    ensures
        ordered_snapshots(entries).contains((entries[e].0, backup_timestamp(entries[e].0)->0)),
{
    let all = snapshots(entries, entries.len());
    let prev = ordered_snapshots(entries);
    let x = (entries[e].0, backup_timestamp(entries[e].0)->0);
    lemma_newest_first(all, all.len());
    assert(all.take(all.len() as int) =~= all);
    lemma_snapshots_complete(entries, entries.len(), e);
    vstd::seq_lib::to_multiset_contains(all, x);
    vstd::seq_lib::to_multiset_contains(prev, x);
}

fn collect_snapshots(entries: &Vec<DirEntry>) -> (snaps: Vec<Snapshot>)
    ensures
        snapshots_view(snaps@) == snapshots(dir_view(entries@), entries@.len()),
{
    let prefix = chars_of(BACKUP_PREFIX);
    let mut snaps: Vec<Snapshot> = Vec::new();
    let mut i: usize = 0;
    assert(snapshots_view(snaps@) =~= snapshots(dir_view(entries@), 0));
    while i < entries.len()
        invariant
            i <= entries.len(),
            prefix@ == BACKUP_PREFIX@,
            snapshots_view(snaps@) == snapshots(dir_view(entries@), i as nat),
        decreases entries.len() - i,
    {
        let ghost prev = snaps@;
        let entry = &entries[i];
        let name = chars_of(entry.name.as_str());
        let parsed = if starts_with(&name, &prefix) {
            parse_u64_from(&name, prefix.len())
        } else {
            None
        };
        assert(parsed == backup_timestamp(dir_view(entries@)[i as int].0));
        match parsed {
            Some(timestamp) => {
                if entry.is_dir {
                    let snap = Snapshot { name: entry.name.clone(), timestamp };
                    snaps.push(snap);
                    assert(snapshots_view(snaps@) =~= snapshots_view(prev).push(snap@));
                }
            },
            None => {},
        }
        i += 1;
    }
    snaps
}

fn find_slot(sorted: &Vec<Snapshot>, timestamp: u64) -> (at: usize)
    ensures
        at == slot(snapshots_view(sorted@), timestamp, 0),
        at <= sorted@.len(),
{
    let mut at: usize = 0;
    while at < sorted.len() && sorted[at].timestamp >= timestamp
        invariant
            at <= sorted.len(),
            slot(snapshots_view(sorted@), timestamp, 0) == slot(
                snapshots_view(sorted@),
                timestamp,
                at as nat,
            ),
        decreases sorted.len() - at,
    {
        at += 1;
    }
    at
}

fn order_newest_first(snaps: Vec<Snapshot>) -> (sorted: Vec<Snapshot>)
    ensures
        snapshots_view(sorted@) == newest_first(snapshots_view(snaps@), snaps@.len()),
{
    let mut sorted: Vec<Snapshot> = Vec::new();
    let mut i: usize = 0;
    assert(snapshots_view(sorted@) =~= newest_first(snapshots_view(snaps@), 0));
    while i < snaps.len()
        invariant
            i <= snaps.len(),
            snapshots_view(sorted@) == newest_first(snapshots_view(snaps@), i as nat),
        decreases snaps.len() - i,
    {
        let ghost prev = sorted@;
        let snap = Snapshot { name: snaps[i].name.clone(), timestamp: snaps[i].timestamp };
        let at = find_slot(&sorted, snap.timestamp);
        sorted.insert(at, snap);
        assert(snapshots_view(sorted@) =~= snapshots_view(prev).insert(at as int, snap@));
        i += 1;
    }
    sorted
}

/// Chooses the snapshots to remove so that at most `retention` stay: the
/// listing's snapshot directories are ordered from newest to oldest and
/// all after the first `retention` are named, newest first. A limit of zero
/// keeps every snapshot.
#[verifier::spinoff_prover]
#[verifier::rlimit(40)]
pub fn cleanup_old_backups(entries: &Vec<DirEntry>, retention: usize) -> (names: Vec<String>)
    ensures
        lines_view(names@) == prune_list(dir_view(entries@), retention as nat),
{
    let mut names: Vec<String> = Vec::new();
    if retention == 0 {
        assert(lines_view(names@) =~= Seq::<Seq<char>>::empty());
        return names;
    }
    let snaps = collect_snapshots(entries);
    if retention >= snaps.len() {
        assert(lines_view(names@) =~= Seq::<Seq<char>>::empty());
        return names;
    }
    let sorted = order_newest_first(snaps);
    proof {
        lemma_newest_first(snapshots_view(snaps@), snaps@.len() as nat);
    }
    let ghost ordered = snapshots_view(sorted@);
    let mut i: usize = retention;
    assert(lines_view(names@) =~= snapshot_names(ordered.skip(retention as int)).take(0));
    while i < sorted.len()
        invariant
            retention <= i <= sorted.len(),
            ordered == snapshots_view(sorted@),
            lines_view(names@) == snapshot_names(ordered.skip(retention as int)).take(
                i - retention,
            ),
        decreases sorted.len() - i,
    {
        let ghost prev = names@;
        let name = sorted[i].name.clone();
        names.push(name);
        assert(lines_view(names@) =~= lines_view(prev).push(name@));
        assert(lines_view(names@) =~= snapshot_names(ordered.skip(retention as int)).take(
            i + 1 - retention,
        ));
        i += 1;
    }
    assert(lines_view(names@) =~= snapshot_names(ordered.skip(retention as int)));
    names
}

/// The name of the snapshot taken at the given time.
pub fn snapshot_name(timestamp: u64) -> (name: String)
    ensures
        name@ == backup_name(timestamp),
{
    let digits = u64_to_string(timestamp);
    concat2(BACKUP_PREFIX, digits.as_str())
}

} // verus!
