//! What stands where on screen: the rows of a file, the struck ones left out and
//! the added ones put in.
use vstd::prelude::*;
use crate::data::edit::{Buffer, Cell, Overlay, Pending, Step, lists_in_order};
use crate::data::ordered::ascending;

verus! {

impl Pending {
    /// What is shown for the rows numbered under `n`: each behind those added
    /// before it, and the struck ones not at all.
    pub open spec fn rows_under(self, n: nat) -> Seq<usize>
        decreases n,
    {
        if n == 0 {
            Seq::empty()
        } else {
            let row = (n - 1) as usize;
            self.rows_under((n - 1) as nat) + self.added_at(row) + (if self.struck.contains(row) {
                Seq::empty()
            } else {
                seq![row]
            })
        }
    }

    /// Everything on show of a file of `total` rows.
    pub open spec fn rows_shown(self, total: usize) -> Seq<usize> {
        self.rows_under(total as nat) + self.added_at(total)
    }

    /// Only rows of the file are struck, and rows are added before a row of the
    /// file or at its end, under numbers that no row of the file has.
    pub open spec fn within(self, total: usize) -> bool {
        &&& forall|r: usize| #[trigger] self.struck.contains(r) ==> r < total
        &&& forall|a: usize| #[trigger] self.added.contains_key(a) ==> a <= total && past(self.added[a], total)
    }

    /// The rows from `a` up to and without `b` that are not struck.
    pub open spec fn left(self, a: nat, b: nat) -> Seq<usize>
        decreases b,
    {
        if b <= a {
            Seq::empty()
        } else if self.struck.contains((b - 1) as usize) {
            self.left(a, (b - 1) as nat)
        } else {
            self.left(a, (b - 1) as nat).push((b - 1) as usize)
        }
    }
}

/// All of the numbers are past those of the file's rows.
pub open spec fn past(ids: Seq<usize>, total: usize) -> bool {
    forall|i: int| 0 <= i < ids.len() ==> #[trigger] ids[i] >= total
}

pub open spec fn step_within(step: Step, total: usize) -> bool {
    match step {
        Step::Cell(_, _) => true,
        Step::Struck(row, _) => row < total,
        Step::Added(anchor, ids) => anchor <= total && past(ids, total),
    }
}

pub open spec fn change_within(change: Seq<Step>, total: usize) -> bool {
    forall|i: int| 0 <= i < change.len() ==> step_within(#[trigger] change[i], total)
}

/// So it is with everything pending, and with everything that undoing or redoing
/// can bring back.
pub open spec fn buffer_within(b: Buffer, total: usize) -> bool {
    &&& b.pending.within(total)
    &&& forall|i: int| 0 <= i < b.undo.len() ==> change_within(#[trigger] b.undo[i], total)
    &&& forall|i: int| 0 <= i < b.redo.len() ==> change_within(#[trigger] b.redo[i], total)
}

proof fn lemma_change_within(p: Pending, change: Seq<Step>, total: usize)
    requires
        p.within(total),
        change_within(change, total),
    ensures
        p.put_all(change).within(total),
        change_within(p.found_by(change), total),
    decreases change.len(),
{
    if change.len() > 0 {
        let front = change.drop_last();
        assert forall|i: int| 0 <= i < front.len() implies step_within(#[trigger] front[i], total) by {
            assert(front[i] == change[i]);
        }
        lemma_change_within(p, front, total);
        let q = p.put_all(front);
        let last = change.last();
        assert(step_within(change[change.len() - 1], total));
        assert(q.put(last).within(total));
        let found = p.found_by(change);
        assert(step_within(q.at(last.target()), total));
        assert forall|i: int| 0 <= i < found.len() implies step_within(#[trigger] found[i], total) by {
            if i > 0 {
                assert(found[i] == p.found_by(front)[i - 1]);
            }
        }
    }
}

/// A change that keeps to the file keeps everything that can be brought back
/// within it.
pub proof fn changing_keeps_within(b: Buffer, change: Seq<Step>, total: usize)
    requires
        buffer_within(b, total),
        change_within(change, total),
    ensures
        buffer_within(b.change(change), total),
{
    lemma_change_within(b.pending, change, total);
    let n = b.change(change);
    assert forall|i: int| 0 <= i < n.undo.len() implies change_within(#[trigger] n.undo[i], total) by {
        if i < b.undo.len() {
            assert(n.undo[i] == b.undo[i]);
        }
    }
}

/// So do undoing and redoing.
pub proof fn history_keeps_within(b: Buffer, total: usize)
    requires
        buffer_within(b, total),
    ensures
        buffer_within(b.undone(), total),
        buffer_within(b.redone(), total),
{
    if b.undo.len() > 0 {
        assert(change_within(b.undo[b.undo.len() - 1], total));
        lemma_change_within(b.pending, b.undo.last(), total);
        let n = b.undone();
        assert forall|i: int| 0 <= i < n.undo.len() implies change_within(#[trigger] n.undo[i], total) by {
            assert(n.undo[i] == b.undo[i]);
        }
        assert forall|i: int| 0 <= i < n.redo.len() implies change_within(#[trigger] n.redo[i], total) by {
            if i < b.redo.len() {
                assert(n.redo[i] == b.redo[i]);
            }
        }
    }
    if b.redo.len() > 0 {
        assert(change_within(b.redo[b.redo.len() - 1], total));
        lemma_change_within(b.pending, b.redo.last(), total);
        let n = b.redone();
        assert forall|i: int| 0 <= i < n.redo.len() implies change_within(#[trigger] n.redo[i], total) by {
            assert(n.redo[i] == b.redo[i]);
        }
        assert forall|i: int| 0 <= i < n.undo.len() implies change_within(#[trigger] n.undo[i], total) by {
            if i < b.undo.len() {
                assert(n.undo[i] == b.undo[i]);
            }
        }
    }
}

proof fn lemma_struck_step(p: Pending, n: nat)
    requires
        p.struck.finite(),
        n < usize::MAX + 1,
    ensures
        p.struck_before(n as int + 1) == p.struck_before(n as int) + if p.struck.contains(n as usize) {
            1nat
        } else {
            0nat
        },
{
    let a = p.struck.filter(|r: usize| r < n as int);
    let b = p.struck.filter(|r: usize| r < n as int + 1);
    if p.struck.contains(n as usize) {
        assert(b =~= a.insert(n as usize));
        assert(!a.contains(n as usize));
    } else {
        assert(b =~= a);
    }
}

proof fn lemma_struck_none(p: Pending)
    ensures
        p.struck_before(0) == 0,
{
    assert(p.struck.filter(|r: usize| r < 0) =~= Set::empty());
}

/// As many rows are left as are not struck.
proof fn lemma_left_len(p: Pending, a: nat, b: nat)
    requires
        p.struck.finite(),
        a <= b <= usize::MAX + 1,
    ensures
        p.left(a, b).len() == (b - a) - (p.struck_before(b as int) - p.struck_before(a as int)),
        p.struck_before(a as int) <= p.struck_before(b as int),
    decreases b,
{
    if a < b {
        lemma_left_len(p, a, (b - 1) as nat);
        lemma_struck_step(p, (b - 1) as nat);
    }
}

/// The rows left under a smaller bound come first.
proof fn lemma_left_prefix(p: Pending, a: nat, b: nat, c: nat)
    requires
        a <= b <= c,
    ensures
        p.left(a, b).len() <= p.left(a, c).len(),
        p.left(a, b) =~= p.left(a, c).take(p.left(a, b).len() as int),
    decreases c,
{
    if b < c {
        lemma_left_prefix(p, a, b, (c - 1) as nat);
    } else {
        assert(p.left(a, b) =~= p.left(a, c).take(p.left(a, b).len() as int));
    }
}

/// The row that is left at `n` is the one with `n` rows left before it.
proof fn lemma_nth_left(p: Pending, a: nat, row: nat, n: nat, end: nat)
    requires
        a <= row < end <= usize::MAX + 1,
        !p.struck.contains(row as usize),
        p.left(a, row).len() == n,
    ensures
        n < p.left(a, end).len(),
        p.left(a, end)[n as int] == row,
{
    lemma_left_prefix(p, a, row + 1, end);
    assert(p.left(a, row + 1)[n as int] == row);
    assert(p.left(a, row + 1)[n as int] == p.left(a, end).take(p.left(a, row + 1).len() as int)[n as int]);
}

/// Between two anchors only rows of the file stand.
proof fn lemma_between(p: Pending, from: nat, to: nat)
    requires
        from < to <= usize::MAX,
        forall|a: usize| from < a < to ==> !p.added.contains_key(a),
    ensures
        p.rows_under(to) == p.rows_under(from) + p.added_at(from as usize) + p.left(from, to),
    decreases to,
{
    let row = (to - 1) as usize;
    if to - 1 > from {
        lemma_between(p, from, (to - 1) as nat);
        assert(!p.added.contains_key(row));
        assert(p.added_at(row) =~= Seq::empty());
        assert(p.rows_under(to) =~= p.rows_under(from) + p.added_at(from as usize) + p.left(from, to));
    } else {
        assert(p.left(from, from) =~= Seq::empty());
        assert(p.rows_under(to) =~= p.rows_under(from) + p.added_at(from as usize) + p.left(from, to));
    }
}

/// Before the first anchor only rows of the file stand.
proof fn lemma_before_any(p: Pending, to: nat)
    requires
        to <= usize::MAX,
        forall|a: usize| a < to ==> !p.added.contains_key(a),
    ensures
        p.rows_under(to) == p.left(0, to),
    decreases to,
{
    if to > 0 {
        lemma_before_any(p, (to - 1) as nat);
        assert(!p.added.contains_key((to - 1) as usize));
        assert(p.rows_under(to) =~= p.left(0, to));
    }
}

/// How many rows are on show: those of the file but for the struck ones, and
/// those added.
pub proof fn as_many_are_shown(p: Pending, n: nat)
    requires
        p.struck.finite(),
        n <= usize::MAX,
    ensures
        p.rows_under(n).len() + p.struck_before(n as int) == n + p.added_before(n),
    decreases n,
{
    if n == 0 {
        lemma_struck_none(p);
    } else {
        as_many_are_shown(p, (n - 1) as nat);
        lemma_struck_step(p, (n - 1) as nat);
    }
}

/// The `n`th row at or after `from` that has not been struck out.
pub fn nth_surviving(overlay: &Overlay, from: usize, n: usize, total: usize) -> (row: usize)
    requires
        overlay.wf(),
        from <= total,
        n < overlay@.pending.left(from as nat, total as nat).len(),
    ensures
        from <= row < total,
        row == overlay@.pending.left(from as nat, total as nat)[n as int],
{
    let ghost p = overlay@.pending;
    let struck = overlay.struck();
    proof {
        lemma_left_len(p, from as nat, total as nat);
    }
    let mut row: usize = from + n;
    let mut i: usize = 0;
    let ghost k: nat = 0;
    proof {
        assert(struck@.take(0) =~= Seq::empty());
        lemma_struck_none(p);
    }
    // Struck rows before `from` do not matter.
    while i < struck.len() && struck[i] < from
        invariant
            ascending(struck@),
            struck@.to_set() == p.struck,
            i <= struck.len(),
            forall|j: int| 0 <= j < i ==> #[trigger] struck@[j] < from,
        decreases struck.len() - i,
    {
        i += 1;
    }
    let ghost first = i;
    while i < struck.len() && struck[i] <= row
        invariant
            overlay.wf(),
            p == overlay@.pending,
            p.struck.finite(),
            ascending(struck@),
            struck@.to_set() == p.struck,
            from <= total,
            n < p.left(from as nat, total as nat).len(),
            first <= i <= struck.len(),
            forall|j: int| 0 <= j < first ==> #[trigger] struck@[j] < from,
            forall|j: int| first <= j < struck@.len() ==> #[trigger] struck@[j] >= from,
            row == from + n + (i - first),
            from <= row < total,
            forall|j: int| first <= j < i ==> #[trigger] struck@[j] < row,
            p.left(from as nat, total as nat).len() == (total - from) - (p.struck_before(total as int)
                - p.struck_before(from as int)),
        decreases struck.len() - i,
    {
        proof {
            // Otherwise every row from here to the end would have been needed.
            assert(struck@.contains(struck@[i as int]));
            assert(p.struck.contains(struck@[i as int]));
            if row + 1 >= total {
                lemma_struck_upto(p, struck@, total, i as int + 1);
                lemma_struck_upto(p, struck@, from, first as int);
            }
        }
        row += 1;
        i += 1;
    }
    proof {
        assert(!p.struck.contains(row)) by {
            if p.struck.contains(row) {
                assert(struck@.contains(row));
                let j = choose|j: int| 0 <= j < struck@.len() && struck@[j] == row;
                if j >= i {
                    assert(struck@[i as int] <= struck@[j]);
                }
            }
        }
        lemma_struck_is(p, struck@, row, i as int);
        lemma_struck_is(p, struck@, from, first as int);
        lemma_left_len(p, from as nat, row as nat);
        lemma_nth_left(p, from as nat, row as nat, n as nat, total as nat);
    }
    row
}

/// In an ascending list of the struck rows, `k` stand before `row`.
proof fn lemma_struck_is(p: Pending, struck: Seq<usize>, row: usize, k: int)
    requires
        ascending(struck),
        struck.to_set() == p.struck,
        0 <= k <= struck.len(),
        forall|j: int| 0 <= j < k ==> #[trigger] struck[j] < row,
        forall|j: int| k <= j < struck.len() ==> #[trigger] struck[j] >= row,
    ensures
        p.struck_before(row as int) == k,
{
    let front = struck.take(k);
    let under = p.struck.filter(|r: usize| r < row as int);
    assert(front.no_duplicates());
    front.unique_seq_to_set();
    assert forall|r: usize| under.contains(r) implies front.to_set().contains(r) by {
        assert(struck.to_set().contains(r));
        let i = choose|i: int| 0 <= i < struck.len() && struck[i] == r;
        assert(front[i] == r);
    }
    assert forall|r: usize| front.to_set().contains(r) implies under.contains(r) by {
        let i = choose|i: int| 0 <= i < front.len() && front[i] == r;
        assert(struck.contains(struck[i]));
    }
    assert(front.to_set() =~= under);
}

/// At least `k` of them stand before `row` if the first `k` do.
proof fn lemma_struck_upto(p: Pending, struck: Seq<usize>, row: usize, k: int)
    requires
        p.struck.finite(),
        ascending(struck),
        struck.to_set() == p.struck,
        0 <= k <= struck.len(),
        forall|j: int| 0 <= j < k ==> #[trigger] struck[j] < row,
    ensures
        p.struck_before(row as int) >= k,
        (forall|j: int| k <= j < struck.len() ==> #[trigger] struck[j] >= row) ==> p.struck_before(
            row as int,
        ) == k,
{
    let front = struck.take(k);
    let under = p.struck.filter(|r: usize| r < row as int);
    assert(front.no_duplicates());
    front.unique_seq_to_set();
    assert forall|r: usize| front.to_set().contains(r) implies under.contains(r) by {
        let i = choose|i: int| 0 <= i < front.len() && front[i] == r;
        assert(struck.contains(struck[i]));
    }
    assert(front.to_set().subset_of(under));
    vstd::set_lib::lemma_len_subset(front.to_set(), under);
    if forall|j: int| k <= j < struck.len() ==> #[trigger] struck[j] >= row {
        lemma_struck_is(p, struck, row, k);
    }
}

proof fn lemma_rows_prefix(p: Pending, a: nat, b: nat)
    requires
        a <= b,
    ensures
        p.rows_under(a).is_prefix_of(p.rows_under(b)),
    decreases b,
{
    if a < b {
        lemma_rows_prefix(p, a, (b - 1) as nat);
        let x = p.rows_under(a);
        let y = p.rows_under((b - 1) as nat);
        let z = p.rows_under(b);
        assert(x =~= y.take(x.len() as int));
        assert(x =~= z.take(x.len() as int)) by {
            assert forall|i: int| 0 <= i < x.len() implies x[i] == z[i] by {
                assert(x[i] == y.take(x.len() as int)[i]);
            }
        }
    } else {
        assert(p.rows_under(a) =~= p.rows_under(b).take(p.rows_under(a).len() as int));
    }
}

/// What is shown up to an anchor and what is added there comes first.
proof fn lemma_upto_anchor(p: Pending, a: usize, total: usize)
    requires
        a <= total,
    ensures
        (p.rows_under(a as nat) + p.added_at(a)).is_prefix_of(p.rows_shown(total)),
{
    let x = p.rows_under(a as nat) + p.added_at(a);
    let z = p.rows_shown(total);
    if a < total {
        let y = p.rows_under(a as nat + 1);
        assert(x =~= y.take(x.len() as int));
        lemma_rows_prefix(p, a as nat + 1, total as nat);
        let w = p.rows_under(total as nat);
        assert(y =~= w.take(y.len() as int));
        assert forall|i: int| 0 <= i < x.len() implies #[trigger] x[i] == z[i] by {
            assert(y[i] == y.take(x.len() as int)[i]);
            assert(y[i] == w.take(y.len() as int)[i]);
        }
        assert(x =~= z.take(x.len() as int));
    } else {
        assert(x =~= z.take(x.len() as int));
    }
}

proof fn lemma_prefix_at(x: Seq<usize>, z: Seq<usize>, i: int)
    requires
        x.is_prefix_of(z),
        0 <= i < x.len(),
    ensures
        i < z.len(),
        z[i] == x[i],
{
    assert(x =~= z.take(x.len() as int));
    assert(z.take(x.len() as int)[i] == z[i]);
}

/// What sits at a display position: a row of the file, stepping over the struck
/// ones, or the id of a row added before it.
///
/// Walks the added anchors and the struck set, both ascending and both expected
/// to be small: this is for adding and removing a handful of rows, not for
/// rewriting the file.
pub fn walk_to(overlay: &Overlay, display: usize, total: usize) -> (row: Option<usize>)
    requires
        overlay.wf(),
        overlay@.pending.within(total),
    ensures
        ({
            let shown = overlay@.pending.rows_shown(total);
            row == if display < shown.len() {
                Some(shown[display as int])
            } else {
                None
            }
        }),
{
    let ghost p = overlay@.pending;
    let ghost shown = p.rows_shown(total);
    proof {
        overlay.pending_wf();
    }
    let lists = overlay.added();
    let ghost anchors = lists@.map_values(|l: (usize, &Vec<usize>)| l.0);
    let mut remaining: usize = display;
    let mut from: usize = 0;
    let mut i: usize = 0;
    let ghost base: Seq<usize> = Seq::empty();
    assert(base =~= shown.take(0));
    while i < lists.len()
        invariant
            overlay.wf(),
            p == overlay@.pending,
            p.within(total),
            p.struck.finite(),
            shown == p.rows_shown(total),
            lists_in_order(lists@, p.added),
            anchors == lists@.map_values(|l: (usize, &Vec<usize>)| l.0),
            i <= lists.len(),
            from == if i == 0 { 0usize } else { lists@[i - 1].0 },
            from <= total,
            base == if i == 0 { Seq::empty() } else { p.rows_under(from as nat) + p.added_at(from) },
            base.is_prefix_of(shown),
            display == base.len() + remaining,
        decreases lists.len() - i,
    {
        let (anchor, ids) = lists[i];
        proof {
            assert(lists@[i as int].0 == anchor);
            assert(p.added.contains_key(anchor));
            if i > 0 {
                assert(anchors[i - 1] < anchors[i as int]);
            }
            assert forall|a: usize| (i > 0 ==> from < a) && a < anchor implies !p.added.contains_key(a) by {
                if p.added.contains_key(a) {
                    let j = choose|j: int| 0 <= j < lists@.len() && (#[trigger] lists@[j]).0 == a;
                    if j < i - 1 {
                        assert(anchors[j] < anchors[i - 1]);
                    } else if j > i {
                        assert(anchors[i as int] < anchors[j]);
                    }
                }
            }
            lemma_left_len(p, from as nat, anchor as nat);
            if i > 0 {
                lemma_between(p, from as nat, anchor as nat);
            } else {
                lemma_before_any(p, anchor as nat);
            }
            assert(p.rows_under(anchor as nat) =~= base + p.left(from as nat, anchor as nat));
            lemma_upto_anchor(p, anchor, total);
        }
        let ghost upto = p.rows_under(anchor as nat) + p.added_at(anchor);
        let surviving: usize = (anchor - from) - overlay.struck_in(from, anchor);
        if remaining < surviving {
            let row = nth_surviving(overlay, from, remaining, anchor);
            proof {
                assert(upto[display as int] == row);
                lemma_prefix_at(upto, shown, display as int);
            }
            return Some(row);
        }
        remaining = remaining - surviving;
        if remaining < ids.len() {
            proof {
                assert(upto[display as int] == ids@[remaining as int]);
                lemma_prefix_at(upto, shown, display as int);
            }
            return Some(ids[remaining]);
        }
        remaining = remaining - ids.len();
        from = anchor;
        proof {
            base = upto;
        }
        i += 1;
    }
    proof {
        assert forall|a: usize| (lists@.len() > 0 ==> from < a) implies !p.added.contains_key(a) by {
            if p.added.contains_key(a) {
                let j = choose|j: int| 0 <= j < lists@.len() && (#[trigger] lists@[j]).0 == a;
                if j < i - 1 {
                    assert(anchors[j] < anchors[i - 1]);
                }
            }
        }
        lemma_left_len(p, from as nat, total as nat);
        if i > 0 && from < total {
            lemma_between(p, from as nat, total as nat);
            assert(!p.added.contains_key(total));
        } else if i == 0 {
            lemma_before_any(p, total as nat);
            assert(!p.added.contains_key(total));
        }
        assert(shown =~= base + p.left(from as nat, total as nat));
    }
    let surviving: usize = (total - from) - overlay.struck_in(from, total);
    if remaining < surviving {
        Some(nth_surviving(overlay, from, remaining, total))
    } else {
        None
    }
}

proof fn lemma_struck_all(p: Pending, total: usize)
    requires
        p.struck.finite(),
        p.within(total),
    ensures
        p.struck.len() == p.struck_before(total as int),
        p.struck_before(total as int) <= total,
{
    assert(p.struck.filter(|r: usize| r < total as int) =~= p.struck);
    lemma_struck_none(p);
    lemma_left_len(p, 0, total as nat);
}

proof fn lemma_added_all(p: Pending, total: usize, n: nat)
    requires
        p.within(total),
        total < n <= usize::MAX + 1,
    ensures
        p.added_before(n) == p.added_before(total as nat) + p.added_at(total).len(),
    decreases n,
{
    if n > total + 1 {
        lemma_added_all(p, total, (n - 1) as nat);
        assert(!p.added.contains_key((n - 1) as usize));
    }
}

/// How many rows are on show.
pub fn shown_count(overlay: &Overlay, total: usize) -> (n: usize)
    requires
        overlay.wf(),
        overlay@.pending.within(total),
    ensures
        n == crate::data::edit::at_most_max(overlay@.pending.rows_shown(total).len()),
{
    proof {
        let p = overlay@.pending;
        overlay.pending_wf();
        lemma_struck_all(p, total);
        lemma_added_all(p, total, usize::MAX as nat + 1);
        as_many_are_shown(p, total as nat);
    }
    (total - overlay.struck_count()).saturating_add(overlay.added_count())
}

/// Opening a row puts its id in one place among what is shown and moves nothing
/// else: behind the rows before the one it was put before, at its place among
/// those added there.
pub proof fn an_added_row_shows_where_it_was_put(p: Pending, before: usize, place: int, id: usize, total: usize)
    requires
        before <= total,
        0 <= place <= p.added_at(before).len(),
    ensures
        ({
            let q = p.put(Step::Added(before, p.added_at(before).insert(place, id)));
            let at = p.rows_under(before as nat).len() + place;
            &&& at <= p.rows_shown(total).len()
            &&& q.rows_shown(total) == p.rows_shown(total).insert(at, id)
        }),
{
    let q = p.put(Step::Added(before, p.added_at(before).insert(place, id)));
    let at = p.rows_under(before as nat).len() + place;
    lemma_unmoved(p, q, before, before as nat);
    assert(q.added_at(before) == p.added_at(before).insert(place, id));
    let x = p.rows_under(before as nat) + p.added_at(before);
    let y = q.rows_under(before as nat) + q.added_at(before);
    assert(y =~= x.insert(at, id));
    if before == total {
        assert(q.rows_shown(total) =~= p.rows_shown(total).insert(at, id));
    } else {
        let row = if p.struck.contains(before) { Seq::empty() } else { seq![before] };
        assert(p.rows_under(before as nat + 1) =~= x + row);
        assert(q.rows_under(before as nat + 1) =~= p.rows_under(before as nat + 1).insert(at, id));
        lemma_moved(p, q, before, at, id, total as nat);
        assert(q.added_at(total) == p.added_at(total));
        assert(q.rows_shown(total) =~= p.rows_shown(total).insert(at, id));
    }
}

proof fn lemma_unmoved(p: Pending, q: Pending, before: usize, n: nat)
    requires
        n <= before,
        q.struck == p.struck,
        forall|a: usize| a != before ==> q.added_at(a) == p.added_at(a),
    ensures
        q.rows_under(n) == p.rows_under(n),
    decreases n,
{
    if n > 0 {
        lemma_unmoved(p, q, before, (n - 1) as nat);
    }
}

proof fn lemma_moved(p: Pending, q: Pending, before: usize, at: int, id: usize, n: nat)
    requires
        before < n <= usize::MAX + 1,
        q.struck == p.struck,
        forall|a: usize| a != before ==> q.added_at(a) == p.added_at(a),
        0 <= at <= p.rows_under(before as nat + 1).len(),
        q.rows_under(before as nat + 1) == p.rows_under(before as nat + 1).insert(at, id),
    ensures
        at <= p.rows_under(n).len(),
        q.rows_under(n) == p.rows_under(n).insert(at, id),
    decreases n,
{
    if n > before + 1 {
        lemma_moved(p, q, before, at, id, (n - 1) as nat);
        assert(q.rows_under(n) =~= p.rows_under(n).insert(at, id));
    }
}

/// A row of the file is nowhere but behind what is added before it, and on show
/// only if it is not struck.
proof fn lemma_one_place(p: Pending, row: usize, n: nat, total: usize, i: int)
    requires
        p.within(total),
        row < total,
        n <= total,
        0 <= i < p.rows_under(n).len(),
        p.rows_under(n)[i] == row,
    ensures
        !p.struck.contains(row),
        i == p.rows_under(row as nat).len() + p.added_at(row).len(),
    decreases n,
{
    if n > 0 {
        let last = (n - 1) as usize;
        let front = p.rows_under((n - 1) as nat);
        let ids = p.added_at(last);
        if i < front.len() {
            assert(front[i] == row);
            lemma_one_place(p, row, (n - 1) as nat, total, i);
        } else if i < front.len() + ids.len() {
            assert(p.added.contains_key(last));
            assert(past(ids, total));
            assert(ids[i - front.len()] == row);
        }
    }
}

/// Where a row of the file is on show, if it is.
pub fn place_of(overlay: &Overlay, row: usize, total: usize) -> (at: Option<usize>)
    requires
        overlay.wf(),
        overlay@.pending.within(total),
        row < total,
    ensures
        ({
            let shown = overlay@.pending.rows_shown(total);
            at == if shown.contains(row) {
                Some(crate::data::edit::at_most_max(shown.index_of(row) as nat))
            } else {
                None
            }
        }),
{
    let ghost p = overlay@.pending;
    let ghost shown = p.rows_shown(total);
    let struck = overlay.is_struck(row);
    proof {
        overlay.pending_wf();
        if shown.contains(row) {
            let i = shown.index_of(row);
            let under = p.rows_under(total as nat);
            if i >= under.len() {
                let ids = p.added_at(total);
                assert(ids[i - under.len()] == row);
                assert(p.added.contains_key(total));
                assert(past(ids, total));
            }
            assert(under[i] == row);
            lemma_one_place(p, row, total as nat, total, i);
        }
        if !struck {
            a_row_stands_behind_what_is_added_before_it(p, row, total);
            let at = p.rows_under(row as nat).len() + p.added_at(row).len();
            assert(shown[at as int] == row);
            as_many_are_shown(p, row as nat);
            lemma_struck_none(p);
            lemma_left_len(p, 0, row as nat);
        }
    }
    if struck {
        return None;
    }
    Some((row - overlay.struck_before(row)).saturating_add(overlay.added_through(row)))
}

/// A row of the file that is on show stands behind what is added before it.
pub proof fn a_row_stands_behind_what_is_added_before_it(p: Pending, row: usize, total: usize)
    requires
        row < total,
        !p.struck.contains(row),
    ensures
        ({
            let at = p.rows_under(row as nat).len() + p.added_at(row).len();
            &&& at < p.rows_shown(total).len()
            &&& p.rows_shown(total)[at as int] == row
            &&& p.rows_under(row as nat + 1).len() == at + 1
        }),
{
    let x = p.rows_under(row as nat + 1);
    lemma_rows_prefix(p, row as nat + 1, total as nat);
    let at = p.rows_under(row as nat).len() + p.added_at(row).len();
    assert(x[at as int] == row);
    lemma_prefix_at(x, p.rows_under(total as nat), at as int);
}

} // verus!
