//! Natural order: a run of digits compared by what it counts, not character by
//! character.
//!
//! A text column holding `9%`, `23%` and `100%` sorts as `100%`, `23%`, `9%`
//! when compared character by character. The same goes for `file10` against
//! `file2`, and every identifier anyone ever wrote a number into.
//!
//! This is not a claim about the data: the column stays text. All that changes
//! is the order the rows come out in, and only where two digit runs have
//! different lengths. Runs of equal length (a hash, a zero-padded id, a date)
//! compare identically either way.
use vstd::prelude::*;
use crate::text;

verus! {

/// The longest digit run whose length the key records exactly. Past this two
/// runs fall back to comparing their digits.
pub const MAX_RUN: usize = 999;

pub open spec fn is_digit(c: char) -> bool {
    '0' <= c <= '9'
}

/// How many digits the text begins with.
pub open spec fn run_len(v: Seq<char>) -> nat
    decreases v.len(),
{
    if v.len() == 0 || !is_digit(v[0]) {
        0
    } else {
        1 + run_len(v.drop_first())
    }
}

/// How many zeros the text begins with.
pub open spec fn zeros(v: Seq<char>) -> nat
    decreases v.len(),
{
    if v.len() == 0 || v[0] != '0' {
        0
    } else {
        1 + zeros(v.drop_first())
    }
}

pub open spec fn capped(n: nat) -> nat {
    if n < MAX_RUN {
        n
    } else {
        MAX_RUN as nat
    }
}

pub open spec fn digit(n: nat) -> char {
    (48 + n % 10) as u8 as char
}

/// A count as three digits.
pub open spec fn marker(n: nat) -> Seq<char> {
    seq![digit(n / 100), digit(n / 10), digit(n)]
}

/// A run without its leading zeros: the digits that count for something.
pub open spec fn counting(run: Seq<char>) -> Seq<char> {
    run.skip(zeros(run) as int)
}

/// How many digits of a run count for something.
pub open spec fn significant(run: Seq<char>) -> nat {
    capped(counting(run).len())
}

/// The number that a character stands for.
pub open spec fn worth(c: char) -> nat {
    (c as nat - '0' as nat) as nat
}

/// What a run of digits counts.
pub open spec fn count(run: Seq<char>) -> nat
    decreases run.len(),
{
    if run.len() == 0 {
        0
    } else {
        count(run.drop_last()) * 10 + worth(run.last())
    }
}

/// The number below, in as many digits.
pub open spec fn less_one(run: Seq<char>) -> Seq<char>
    decreases run.len(),
{
    if run.len() == 0 {
        run
    } else if run.last() == '0' {
        less_one(run.drop_last()).push('9')
    } else {
        run.drop_last().push(digit((worth(run.last()) - 1) as nat))
    }
}

/// The last character there is, which no text has a use for: nothing that
/// follows a number sorts behind it.
pub const LAST: char = '\u{10ffff}';

/// A run as the key writes it behind its marker.
///
/// A number with leading zeros has its place right before the same number
/// without them: it is the number below, as if behind everything that could
/// follow that. The zeros come next, more of them first.
pub open spec fn written(run: Seq<char>) -> Seq<char> {
    let d = counting(run);
    if 0 < d.len() < MAX_RUN && zeros(run) > 0 {
        less_one(d).push(LAST) + run.take(zeros(run) as int).push('1')
    } else {
        run
    }
}

/// A run of the key: the marker, and the digits behind it.
pub open spec fn keyed(run: Seq<char>) -> Seq<char> {
    marker(significant(run)) + written(run)
}

proof fn lemma_run_len(v: Seq<char>)
    ensures
        run_len(v) <= v.len(),
        forall|i: int| 0 <= i < run_len(v) ==> is_digit(#[trigger] v[i]),
        run_len(v) < v.len() ==> !is_digit(v[run_len(v) as int]),
    decreases v.len(),
{
    if v.len() > 0 && is_digit(v[0]) {
        let rest = v.drop_first();
        lemma_run_len(rest);
        assert forall|i: int| 0 <= i < run_len(v) implies is_digit(#[trigger] v[i]) by {
            if i > 0 {
                assert(rest[i - 1] == v[i]);
            }
        }
    }
}

#[via_fn]
proof fn key_shrinks(v: Seq<char>) {
    lemma_run_len(v);
}

#[via_fn]
proof fn runs_shrink(v: Seq<char>) {
    lemma_run_len(v);
}

/// A text with every digit run behind a marker that counts its significant
/// digits. Everything else is as it was.
pub open spec fn key_text(v: Seq<char>) -> Seq<char>
    decreases v.len(),
    via key_shrinks
{
    if v.len() == 0 {
        Seq::empty()
    } else if is_digit(v[0]) {
        let n = run_len(v) as int;
        keyed(v.take(n)) + key_text(v.skip(n))
    } else {
        seq![v[0]] + key_text(v.skip(1))
    }
}

/// How many digits each run of the text has, in order.
pub open spec fn run_lens(v: Seq<char>) -> Seq<nat>
    decreases v.len(),
    via runs_shrink
{
    if v.len() == 0 {
        Seq::empty()
    } else if is_digit(v[0]) {
        seq![run_len(v)] + run_lens(v.skip(run_len(v) as int))
    } else {
        run_lens(v.skip(1))
    }
}

/// The lengths as they are compared: past [`MAX_RUN`] all count as one.
pub open spec fn runs_of(v: Seq<char>) -> Seq<nat> {
    run_lens(v).map_values(|n: nat| capped(n))
}

fn digit_run(chars: &Vec<char>, from: usize) -> (to: usize)
    requires
        from <= chars.len(),
    ensures
        from <= to <= chars.len(),
        to == from + run_len(chars@.skip(from as int)),
{
    let mut to = from;
    while to < chars.len() && '0' <= chars[to] && chars[to] <= '9'
        invariant
            from <= to <= chars.len(),
            run_len(chars@.skip(from as int)) == (to - from) + run_len(chars@.skip(to as int)),
        decreases chars.len() - to,
    {
        assert(chars@.skip(to as int).drop_first() =~= chars@.skip(to + 1));
        to += 1;
    }
    to
}

fn zero_run(chars: &Vec<char>, from: usize, to: usize) -> (n: usize)
    requires
        from <= to <= chars.len(),
    ensures
        n == zeros(chars@.subrange(from as int, to as int)),
        n <= to - from,
{
    let mut at = from;
    while at < to && chars[at] == '0'
        invariant
            from <= at <= to <= chars.len(),
            zeros(chars@.subrange(from as int, to as int)) == (at - from) + zeros(
                chars@.subrange(at as int, to as int),
            ),
        decreases to - at,
    {
        assert(chars@.subrange(at as int, to as int).drop_first() =~= chars@.subrange(at + 1, to as int));
        at += 1;
    }
    at - from
}

fn push_digit(out: &mut String, n: usize)
    ensures
        final(out)@ == old(out)@.push(digit(n as nat)),
{
    let d: u8 = (n % 10) as u8;
    text::push(out, (48 + d) as char);
}

/// The digits of `chars[from..to]`, behind what `out` holds.
fn push_run(out: &mut String, chars: &Vec<char>, from: usize, to: usize)
    requires
        from <= to <= chars.len(),
    ensures
        final(out)@ == old(out)@ + chars@.subrange(from as int, to as int),
{
    let ghost before = out@;
    let mut at: usize = from;
    assert(chars@.subrange(from as int, from as int) =~= Seq::empty());
    assert(before + Seq::<char>::empty() =~= before);
    while at < to
        invariant
            from <= at <= to <= chars.len(),
            out@ == before + chars@.subrange(from as int, at as int),
        decreases to - at,
    {
        text::push(out, chars[at]);
        at += 1;
        assert(chars@.subrange(from as int, at as int) =~= chars@.subrange(from as int, at - 1).push(
            chars@[at - 1],
        ));
        assert(out@ =~= before + chars@.subrange(from as int, at as int));
    }
}

/// The number below that of `chars[from..to]`, behind what `out` holds.
fn push_less_one(out: &mut String, chars: &Vec<char>, from: usize, to: usize)
    requires
        from <= to <= chars.len(),
        forall|i: int| from <= i < to ==> is_digit(#[trigger] chars@[i]),
    ensures
        final(out)@ == old(out)@ + less_one(chars@.subrange(from as int, to as int)),
    decreases to - from,
{
    let ghost before = out@;
    let ghost run = chars@.subrange(from as int, to as int);
    if from == to {
        assert(out@ =~= before + less_one(run));
        return;
    }
    let c = chars[to - 1];
    assert(run.last() == c);
    assert(run.drop_last() =~= chars@.subrange(from as int, to - 1));
    if c == '0' {
        push_less_one(out, chars, from, to - 1);
        text::push(out, '9');
    } else {
        push_run(out, chars, from, to - 1);
        let worth: usize = c as usize - '0' as usize;
        push_digit(out, worth - 1);
    }
    assert(out@ =~= before + less_one(run));
}

/// One digit run as the key has it, behind what `out` holds.
fn push_keyed(out: &mut String, chars: &Vec<char>, from: usize, to: usize)
    requires
        from <= to <= chars.len(),
        forall|i: int| from <= i < to ==> is_digit(#[trigger] chars@[i]),
    ensures
        final(out)@ == old(out)@ + keyed(chars@.subrange(from as int, to as int)),
{
    let ghost before = out@;
    let ghost run = chars@.subrange(from as int, to as int);
    let leading: usize = zero_run(chars, from, to);
    let start: usize = from + leading;
    assert(counting(run) =~= chars@.subrange(start as int, to as int));
    assert(run.take(leading as int) =~= chars@.subrange(from as int, start as int));
    let digits: usize = to - start;
    let count: usize = if digits < MAX_RUN { digits } else { MAX_RUN };
    push_digit(out, count / 100);
    push_digit(out, count / 10);
    push_digit(out, count);
    assert(out@ =~= before + marker(count as nat));
    if 0 < digits && digits < MAX_RUN && leading > 0 {
        push_less_one(out, chars, start, to);
        text::push(out, LAST);
        push_run(out, chars, from, start);
        text::push(out, '1');
    } else {
        push_run(out, chars, from, to);
    }
    assert(out@ =~= before + keyed(run));
}

/// A sort key whose order is `value`'s natural order.
///
/// Every digit run is emitted behind a marker counting its *significant*
/// digits, so a longer number sorts after a shorter one whatever its digits
/// are, and runs of the same length then compare digit by digit. Everything
/// that is not a digit is copied through untouched.
///
/// Leading zeros count for nothing, so `03` sorts after `2`; they are kept all
/// the same, so `03` and `3` are ordered rather than tied.
pub fn key(value: &str) -> (out: String)
    ensures
        out@ == key_text(value@),
{
    let chars = text::chars(value);
    let mut out = String::new();
    let mut at: usize = 0;
    assert(chars@.skip(0) =~= chars@);
    assert(out@ + key_text(chars@) =~= key_text(chars@));
    while at < chars.len()
        invariant
            chars@ == value@,
            at <= chars.len(),
            out@ + key_text(chars@.skip(at as int)) == key_text(value@),
        decreases chars.len() - at,
    {
        let ghost rest = chars@.skip(at as int);
        let ghost before = out@;
        let c = chars[at];
        if '0' <= c && c <= '9' {
            let end = digit_run(&chars, at);
            let ghost n = run_len(rest) as int;
            proof {
                lemma_run_len(rest);
                assert forall|i: int| at <= i < end implies is_digit(#[trigger] chars@[i]) by {
                    assert(rest[i - at] == chars@[i]);
                }
            }
            assert(n >= 1);
            let ghost run = rest.take(n);
            assert(run =~= chars@.subrange(at as int, end as int));
            push_keyed(&mut out, &chars, at, end);
            at = end;
            assert(rest.skip(n) =~= chars@.skip(at as int));
            assert(out@ + key_text(rest.skip(n)) =~= before + (keyed(run) + key_text(rest.skip(n))));
        } else {
            text::push(&mut out, c);
            at += 1;
            assert(rest.skip(1) =~= chars@.skip(at as int));
            assert(out@ + key_text(rest.skip(1)) =~= before + (seq![c] + key_text(rest.skip(1))));
        }
    }
    assert(chars@.skip(at as int) =~= Seq::empty());
    assert(out@ + key_text(Seq::empty()) =~= out@);
    out
}

/// How many characters each of `value`'s digit runs is, in order.
///
/// Written characters and not significant digits, because equal written length
/// is what makes the two orders agree.
pub fn runs(value: &str) -> (out: Vec<usize>)
    ensures
        out@.map_values(|n: usize| n as nat) == runs_of(value@),
{
    let chars = text::chars(value);
    let mut out: Vec<usize> = Vec::new();
    let mut at: usize = 0;
    let ghost f = |n: usize| n as nat;
    assert(chars@.skip(0) =~= chars@);
    assert(out@.map_values(f) + runs_of(chars@) =~= runs_of(chars@));
    while at < chars.len()
        invariant
            chars@ == value@,
            at <= chars.len(),
            f == |n: usize| n as nat,
            out@.map_values(f) + runs_of(chars@.skip(at as int)) == runs_of(value@),
        decreases chars.len() - at,
    {
        let ghost rest = chars@.skip(at as int);
        let c = chars[at];
        if '0' <= c && c <= '9' {
            let end = digit_run(&chars, at);
            let ghost before = out@;
            let count: usize = if end - at < MAX_RUN { end - at } else { MAX_RUN };
            out.push(count);
            assert(rest.skip(run_len(rest) as int) =~= chars@.skip(end as int));
            assert(runs_of(rest) =~= seq![count as nat] + runs_of(chars@.skip(end as int)));
            assert(out@.map_values(f) + runs_of(chars@.skip(end as int)) =~= before.map_values(f)
                + runs_of(rest));
            at = end;
        } else {
            at += 1;
            assert(rest.skip(1) =~= chars@.skip(at as int));
        }
    }
    assert(chars@.skip(at as int) =~= Seq::empty());
    assert(runs_of(Seq::empty()) =~= Seq::empty());
    assert(out@.map_values(f) + runs_of(Seq::empty()) =~= out@.map_values(f));
    out
}

/// Two values of the column have a digit run at one position with different
/// lengths.
pub open spec fn uneven(values: Seq<Seq<char>>) -> bool {
    exists|i: int, j: int, n: int|
        0 <= i < values.len() && 0 <= j < values.len() && 0 <= n < runs_of(values[i]).len() && 0 <= n
            < runs_of(values[j]).len() && #[trigger] runs_of(values[i])[n] != #[trigger] runs_of(
            values[j],
        )[n]
}

/// Values as sequences of characters.
pub open spec fn strs(values: Seq<&str>) -> Seq<Seq<char>> {
    values.map_values(|value: &str| value@)
}

/// The lengths are those seen, as far as they go.
spec fn agrees(lens: Seq<nat>, seen: Seq<usize>) -> bool {
    &&& lens.len() <= seen.len()
    &&& forall|n: int| 0 <= n < lens.len() ==> #[trigger] lens[n] == seen[n] as nat
}

/// One of the first `upto` values has a run of this length at position `n`.
spec fn had(values: Seq<Seq<char>>, upto: int, n: int, len: nat) -> bool {
    exists|k: int|
        0 <= k < upto && n < runs_of(values[k]).len() && #[trigger] runs_of(values[k])[n] == len
}

/// Whether `values` would come out in a different order than comparing them
/// character by character puts them, which is the only reason to pay for a key
/// at all.
///
/// The question is per position: whether the column's first digit run is ever
/// a different length than another row's first, its second than another's
/// second, and so on.
pub fn worth_keying(values: &[&str]) -> (worth: bool)
    ensures
        worth == uneven(strs(values@)),
{
    let ghost all = strs(values@);
    let mut seen: Vec<usize> = Vec::new();
    let mut i: usize = 0;
    while i < values.len()
        invariant
            i <= values.len(),
            all == strs(values@),
            forall|k: int| 0 <= k < i ==> agrees(runs_of(#[trigger] all[k]), seen@),
            forall|n: int| #![auto] 0 <= n < seen@.len() ==> had(all, i as int, n, seen@[n] as nat),
        decreases values.len() - i,
    {
        let here = runs(values[i]);
        let ghost lens = runs_of(all[i as int]);
        let ghost f = |n: usize| n as nat;
        assert(here@.map_values(f) == lens);
        let mut nth: usize = 0;
        assert forall|n: int| #![auto] 0 <= n < seen@.len() implies had(
            all,
            i + 1,
            n,
            seen@[n] as nat,
        ) by {
            assert(had(all, i as int, n, seen@[n] as nat));
            let k = choose|k: int|
                0 <= k < i && n < runs_of(all[k]).len() && #[trigger] runs_of(all[k])[n]
                    == seen@[n] as nat;
            assert(0 <= k < i + 1);
        }
        while nth < here.len()
            invariant
                i < values.len(),
                all == strs(values@),
                nth <= here.len(),
                lens == runs_of(all[i as int]),
                f == |n: usize| n as nat,
                here@.map_values(f) == lens,
                forall|k: int| 0 <= k < i ==> agrees(runs_of(#[trigger] all[k]), seen@),
                nth <= seen@.len(),
                forall|n: int| 0 <= n < nth ==> #[trigger] lens[n] == seen@[n] as nat,
                forall|n: int| #![auto] 0 <= n < seen@.len() ==> had(all, i + 1, n, seen@[n] as nat),
            decreases here.len() - nth,
        {
            assert(lens[nth as int] == here@[nth as int] as nat);
            if nth < seen.len() {
                if seen[nth] != here[nth] {
                    proof {
                        let n = nth as int;
                        assert(had(all, i + 1, n, seen@[n] as nat));
                        let k = choose|k: int|
                            0 <= k < i + 1 && n < runs_of(all[k]).len() && #[trigger] runs_of(
                                all[k],
                            )[n] == seen@[n] as nat;
                        assert(runs_of(all[k])[n] != runs_of(all[i as int])[n]);
                    }
                    return true;
                }
            } else {
                let ghost before = seen@;
                seen.push(here[nth]);
                proof {
                    assert(nth == before.len());
                    assert forall|n: int| #![auto] 0 <= n < seen@.len() implies had(
                        all,
                        i + 1,
                        n,
                        seen@[n] as nat,
                    ) by {
                        if n < before.len() {
                            assert(had(all, i + 1, n, before[n] as nat));
                        } else {
                            assert(runs_of(all[i as int])[n] == seen@[n] as nat);
                        }
                    }
                }
            }
            nth += 1;
        }
        i += 1;
    }
    proof {
        if uneven(all) {
            let (a, b, n) = choose|a: int, b: int, n: int|
                0 <= a < all.len() && 0 <= b < all.len() && 0 <= n < runs_of(all[a]).len()
                    && 0 <= n < runs_of(all[b]).len() && #[trigger] runs_of(all[a])[n]
                    != #[trigger] runs_of(all[b])[n];
            assert(agrees(runs_of(all[a]), seen@));
            assert(agrees(runs_of(all[b]), seen@));
        }
    }
    false
}

/// `a` comes before `b` when compared character by character. For text in
/// UTF-8 this is also the order of the bytes.
pub open spec fn before(a: Seq<char>, b: Seq<char>) -> bool
    decreases a.len(),
{
    if b.len() == 0 {
        false
    } else if a.len() == 0 {
        true
    } else if a[0] != b[0] {
        a[0] < b[0]
    } else {
        before(a.drop_first(), b.drop_first())
    }
}

/// A common front does not matter.
proof fn lemma_before_front(front: Seq<char>, a: Seq<char>, b: Seq<char>)
    ensures
        before(front + a, front + b) == before(a, b),
    decreases front.len(),
{
    if front.len() == 0 {
        assert(front + a =~= a);
        assert(front + b =~= b);
    } else {
        lemma_before_front(front.drop_first(), a, b);
        assert((front + a).drop_first() =~= front.drop_first() + a);
        assert((front + b).drop_first() =~= front.drop_first() + b);
    }
}

/// The first character that differs decides.
proof fn lemma_before_at(a: Seq<char>, b: Seq<char>, k: int)
    requires
        0 <= k < a.len(),
        k < b.len(),
        a.take(k) == b.take(k),
        a[k] != b[k],
    ensures
        before(a, b) == (a[k] < b[k]),
{
    assert(a =~= a.take(k) + a.skip(k));
    assert(b =~= b.take(k) + b.skip(k));
    lemma_before_front(a.take(k), a.skip(k), b.skip(k));
}

proof fn lemma_zeros(v: Seq<char>)
    ensures
        zeros(v) <= v.len(),
        forall|i: int| 0 <= i < zeros(v) ==> #[trigger] v[i] == '0',
        zeros(v) < v.len() ==> v[zeros(v) as int] != '0',
    decreases v.len(),
{
    if v.len() > 0 && v[0] == '0' {
        let rest = v.drop_first();
        lemma_zeros(rest);
        assert forall|i: int| 0 <= i < zeros(v) implies #[trigger] v[i] == '0' by {
            if i > 0 {
                assert(rest[i - 1] == v[i]);
            }
        }
    }
}

proof fn lemma_digits(x: nat, y: nat)
    requires
        x < 10,
        y < 10,
    ensures
        digit(x) < digit(y) <==> x < y,
        digit(x) == digit(y) <==> x == y,
        is_digit(digit(x)),
{
}

/// Markers compare as the counts they stand for.
proof fn lemma_markers(m: nat, n: nat, a: Seq<char>, b: Seq<char>)
    requires
        m <= MAX_RUN,
        n <= MAX_RUN,
    ensures
        m != n ==> before(marker(m) + a, marker(n) + b) == (m < n),
        m == n ==> before(marker(m) + a, marker(n) + b) == before(a, b),
{
    let x = marker(m) + a;
    let y = marker(n) + b;
    let (m2, m1, m0) = (m / 100, (m / 10) % 10, m % 10);
    let (n2, n1, n0) = (n / 100, (n / 10) % 10, n % 10);
    assert(digit(m / 100) == digit(m2) && digit(m / 10) == digit(m1) && digit(m) == digit(m0));
    assert(digit(n / 100) == digit(n2) && digit(n / 10) == digit(n1) && digit(n) == digit(n0));
    assert(x[0] == digit(m2) && x[1] == digit(m1) && x[2] == digit(m0));
    assert(y[0] == digit(n2) && y[1] == digit(n1) && y[2] == digit(n0));
    lemma_digits(m2, n2);
    lemma_digits(m1, n1);
    lemma_digits(m0, n0);
    assert(m == 100 * m2 + 10 * m1 + m0);
    assert(n == 100 * n2 + 10 * n1 + n0);
    if m == n {
        lemma_before_front(marker(m), a, b);
    } else if m2 != n2 {
        assert(x.take(0) =~= y.take(0));
        lemma_before_at(x, y, 0);
    } else if m1 != n1 {
        assert(x.take(1) =~= y.take(1));
        lemma_before_at(x, y, 1);
    } else {
        assert(x.take(2) =~= y.take(2));
        lemma_before_at(x, y, 2);
    }
}

/// The runs that both texts have are as long in one as in the other, and none
/// is longer than the key can tell.
pub open spec fn even(a: Seq<char>, b: Seq<char>) -> bool {
    &&& forall|n: int|
        0 <= n < run_lens(a).len() && n < run_lens(b).len() ==> #[trigger] run_lens(a)[n]
            == #[trigger] run_lens(b)[n]
    &&& forall|n: int| 0 <= n < run_lens(a).len() ==> #[trigger] run_lens(a)[n] <= MAX_RUN
    &&& forall|n: int| 0 <= n < run_lens(b).len() ==> #[trigger] run_lens(b)[n] <= MAX_RUN
}

proof fn lemma_even_tail(a: Seq<char>, b: Seq<char>, x: Seq<char>, y: Seq<char>, n: nat)
    requires
        even(a, b),
        run_lens(a) == seq![n] + run_lens(x),
        run_lens(b) == seq![n] + run_lens(y),
    ensures
        even(x, y),
{
    assert forall|k: int| 0 <= k < run_lens(x).len() && k < run_lens(y).len() implies #[trigger] run_lens(x)[k]
        == #[trigger] run_lens(y)[k] by {
        assert(run_lens(a)[k + 1] == run_lens(b)[k + 1]);
    }
    assert forall|k: int| 0 <= k < run_lens(x).len() implies #[trigger] run_lens(x)[k] <= MAX_RUN by {
        assert(run_lens(a)[k + 1] <= MAX_RUN);
    }
    assert forall|k: int| 0 <= k < run_lens(y).len() implies #[trigger] run_lens(y)[k] <= MAX_RUN by {
        assert(run_lens(b)[k + 1] <= MAX_RUN);
    }
}

pub open spec fn digits(run: Seq<char>) -> bool {
    forall|i: int| 0 <= i < run.len() ==> is_digit(#[trigger] run[i])
}

proof fn lemma_drop_last_digits(run: Seq<char>)
    requires
        digits(run),
        run.len() > 0,
    ensures
        digits(run.drop_last()),
        is_digit(run.last()),
        worth(run.last()) < 10,
{
    assert forall|i: int| 0 <= i < run.drop_last().len() implies is_digit(#[trigger] run.drop_last()[i]) by {
        assert(run.drop_last()[i] == run[i]);
    }
}

/// Of runs of one length, only equal ones count the same.
proof fn lemma_same_count(a: Seq<char>, b: Seq<char>)
    requires
        digits(a),
        digits(b),
        a.len() == b.len(),
        count(a) == count(b),
    ensures
        a == b,
    decreases a.len(),
{
    if a.len() > 0 {
        lemma_drop_last_digits(a);
        lemma_drop_last_digits(b);
        lemma_same_count(a.drop_last(), b.drop_last());
        assert(a =~= a.drop_last().push(a.last()));
        assert(b =~= b.drop_last().push(b.last()));
    } else {
        assert(a =~= b);
    }
}

/// Of runs of one length, the one that counts less comes first whatever
/// follows.
proof fn lemma_lower_count(a: Seq<char>, b: Seq<char>, x: Seq<char>, y: Seq<char>)
    requires
        digits(a),
        digits(b),
        a.len() == b.len(),
        count(a) < count(b),
    ensures
        before(a + x, b + y),
        !before(b + y, a + x),
    decreases a.len(),
{
    if a.len() > 0 {
        let (p, q) = (a.last(), b.last());
        let (fa, fb) = (a.drop_last(), b.drop_last());
        lemma_drop_last_digits(a);
        lemma_drop_last_digits(b);
        assert(a + x =~= fa + (seq![p] + x));
        assert(b + y =~= fb + (seq![q] + y));
        if count(fa) < count(fb) {
            lemma_lower_count(fa, fb, seq![p] + x, seq![q] + y);
        } else {
            assert(count(fa) == count(fb) && worth(p) < worth(q));
            lemma_same_count(fa, fb);
            lemma_before_front(fa, seq![p] + x, seq![q] + y);
            lemma_before_front(fa, seq![q] + y, seq![p] + x);
        }
    }
}

/// Of runs of one length, the order is that of what they count.
proof fn lemma_counts_decide(a: Seq<char>, b: Seq<char>, x: Seq<char>, y: Seq<char>)
    requires
        digits(a),
        digits(b),
        a.len() == b.len(),
        a != b,
    ensures
        before(a + x, b + y) == (count(a) < count(b)),
{
    if count(a) < count(b) {
        lemma_lower_count(a, b, x, y);
    } else if count(b) < count(a) {
        lemma_lower_count(b, a, y, x);
    } else {
        lemma_same_count(a, b);
    }
}

proof fn lemma_less_one(run: Seq<char>)
    requires
        digits(run),
        count(run) > 0,
    ensures
        digits(less_one(run)),
        less_one(run).len() == run.len(),
        count(less_one(run)) == count(run) - 1,
    decreases run.len(),
{
    let c = run.last();
    let front = run.drop_last();
    lemma_drop_last_digits(run);
    let down = less_one(run);
    if c == '0' {
        lemma_less_one(front);
        assert(down.drop_last() =~= less_one(front));
        assert(worth('9') == 9 && worth('0') == 0);
    } else {
        assert(down.drop_last() =~= front);
        lemma_digits((worth(c) - 1) as nat, 0);
        assert(worth(digit((worth(c) - 1) as nat)) == worth(c) - 1);
    }
    assert forall|i: int| 0 <= i < down.len() implies is_digit(#[trigger] down[i]) by {
        if i < down.len() - 1 {
            assert(down[i] == down.drop_last()[i]);
        }
    }
}

proof fn lemma_zero_counts_nothing(run: Seq<char>)
    requires
        run.len() > 0,
        run[0] == '0',
    ensures
        count(run) == count(run.drop_first()),
    decreases run.len(),
{
    if run.len() > 1 {
        lemma_zero_counts_nothing(run.drop_last());
        assert(run.drop_last().drop_first() =~= run.drop_first().drop_last());
    } else {
        assert(run.drop_last() =~= Seq::empty());
        assert(run.drop_first() =~= Seq::empty());
        assert(worth('0') == 0);
    }
}

/// What a run counts is what its significant digits count, and those begin
/// with something.
proof fn lemma_counting(run: Seq<char>)
    requires
        digits(run),
    ensures
        digits(counting(run)),
        count(counting(run)) == count(run),
        counting(run).len() > 0 ==> counting(run)[0] != '0',
        counting(run).len() == run.len() - zeros(run),
        run == run.take(zeros(run) as int) + counting(run),
    decreases run.len(),
{
    lemma_zeros(run);
    let d = counting(run);
    assert(run =~= run.take(zeros(run) as int) + d);
    assert forall|i: int| 0 <= i < d.len() implies is_digit(#[trigger] d[i]) by {
        assert(d[i] == run[i + zeros(run)]);
    }
    if run.len() > 0 && run[0] == '0' {
        let rest = run.drop_first();
        assert forall|i: int| 0 <= i < rest.len() implies is_digit(#[trigger] rest[i]) by {
            assert(rest[i] == run[i + 1]);
        }
        lemma_counting(rest);
        lemma_zero_counts_nothing(run);
        assert(counting(rest) =~= d);
    } else {
        assert(d =~= run);
    }
}

/// A longer number counts more.
proof fn lemma_longer_counts_more(a: Seq<char>, b: Seq<char>)
    requires
        digits(a),
        digits(b),
        a.len() < b.len(),
        b[0] != '0',
    ensures
        count(a) < count(b),
    decreases b.len(),
{
    lemma_drop_last_digits(b);
    if b.len() == 1 {
        assert(b.drop_last() =~= Seq::empty());
    } else if a.len() == 0 {
        lemma_longer_counts_more(a, b.drop_last());
    } else {
        lemma_drop_last_digits(a);
        lemma_longer_counts_more(a.drop_last(), b.drop_last());
    }
}

/// The run is written out number first: it counts for something, and the key
/// records how long it is.
spec fn exact(run: Seq<char>) -> bool {
    0 < counting(run).len() < MAX_RUN
}

/// What counts, as it is written.
spec fn lead(run: Seq<char>) -> Seq<char> {
    if zeros(run) > 0 {
        less_one(counting(run))
    } else {
        counting(run)
    }
}

/// What is written behind it.
spec fn tail(run: Seq<char>) -> Seq<char> {
    if zeros(run) > 0 {
        seq![LAST] + run.take(zeros(run) as int).push('1')
    } else {
        Seq::empty()
    }
}

proof fn lemma_exact(run: Seq<char>)
    requires
        digits(run),
        exact(run),
    ensures
        written(run) == lead(run) + tail(run),
        digits(lead(run)),
        lead(run).len() == counting(run).len() == significant(run),
        count(run) > 0,
        count(lead(run)) == if zeros(run) > 0 {
            count(run) - 1
        } else {
            count(run) as int
        },
{
    lemma_counting(run);
    lemma_longer_counts_more(Seq::empty(), counting(run));
    lemma_less_one(counting(run));
    if zeros(run) == 0 {
        assert(counting(run) =~= run);
    }
    assert(written(run) =~= lead(run) + tail(run));
}

/// Of two texts only one comes before the other.
proof fn lemma_not_both_before(a: Seq<char>, b: Seq<char>)
    ensures
        !(before(a, b) && before(b, a)),
    decreases a.len(),
{
    if a.len() > 0 && b.len() > 0 && a[0] == b[0] {
        lemma_not_both_before(a.drop_first(), b.drop_first());
    }
}

/// Of two runs of one length the one that counts less is told apart.
proof fn lemma_told_apart(m: Seq<char>, n: Seq<char>)
    requires
        m.len() == n.len() <= MAX_RUN,
        digits(m),
        digits(n),
        count(m) < count(n),
    ensures
        told_apart(m, n),
        zeros(m) == 0 && counting(m).len() == counting(n).len() ==> zeros(n) == 0,
{
    lemma_counting(m);
    lemma_counting(n);
    if counting(n).len() < counting(m).len() {
        lemma_longer_counts_more(counting(n), counting(m));
    }
}

/// Two runs of one length that differ decide the order, keyed or not.
proof fn lemma_runs_decide(
    ra: Seq<char>,
    rb: Seq<char>,
    ka: Seq<char>,
    kb: Seq<char>,
    x: Seq<char>,
    y: Seq<char>,
)
    requires
        ra.len() == rb.len() <= MAX_RUN,
        ra != rb,
        digits(ra),
        digits(rb),
    ensures
        before(keyed(ra) + ka, keyed(rb) + kb) == before(ra + x, rb + y),
{
    lemma_counts_decide(ra, rb, x, y);
    if count(ra) == count(rb) {
        lemma_same_count(ra, rb);
    } else if count(ra) < count(rb) {
        lemma_told_apart(ra, rb);
        lemma_keyed_order(ra, rb, ka, kb);
    } else {
        lemma_told_apart(rb, ra);
        lemma_keyed_order(rb, ra, kb, ka);
        lemma_not_both_before(keyed(ra) + ka, keyed(rb) + kb);
    }
}

/// Where runs are equally long, ordering by the key is the order the texts had.
pub proof fn equal_length_runs_keep_their_order(a: Seq<char>, b: Seq<char>)
    requires
        even(a, b),
    ensures
        before(key_text(a), key_text(b)) == before(a, b),
    decreases a.len(),
{
    let ka = key_text(a);
    let kb = key_text(b);
    if b.len() == 0 || a.len() == 0 {
        lemma_key_empty(a);
        lemma_key_empty(b);
    } else if is_digit(a[0]) && is_digit(b[0]) {
        let n = run_len(a) as int;
        lemma_run_len(a);
        lemma_run_len(b);
        assert(run_lens(a)[0] == run_len(a));
        assert(run_lens(b)[0] == run_len(b));
        assert(run_len(b) == n);
        let ra = a.take(n);
        let rb = b.take(n);
        let xa = a.skip(n);
        let xb = b.skip(n);
        assert(a =~= ra + xa);
        assert(b =~= rb + xb);
        if ra == rb {
            lemma_even_tail(a, b, xa, xb, n as nat);
            equal_length_runs_keep_their_order(xa, xb);
            lemma_before_front(ra, xa, xb);
            lemma_before_front(keyed(ra), key_text(xa), key_text(xb));
        } else {
            assert forall|i: int| 0 <= i < ra.len() implies is_digit(#[trigger] ra[i]) by {
                assert(ra[i] == a[i]);
            }
            assert forall|i: int| 0 <= i < rb.len() implies is_digit(#[trigger] rb[i]) by {
                assert(rb[i] == b[i]);
            }
            lemma_runs_decide(ra, rb, key_text(xa), key_text(xb), xa, xb);
        }
    } else if !is_digit(a[0]) && !is_digit(b[0]) {
        assert(ka[0] == a[0] && kb[0] == b[0]);
        assert(ka.drop_first() =~= key_text(a.skip(1)));
        assert(kb.drop_first() =~= key_text(b.skip(1)));
        assert(a.drop_first() =~= a.skip(1));
        assert(b.drop_first() =~= b.skip(1));
        assert(run_lens(a) == run_lens(a.skip(1)));
        assert(run_lens(b) == run_lens(b.skip(1)));
        if a[0] == b[0] {
            equal_length_runs_keep_their_order(a.skip(1), b.skip(1));
        }
    } else {
        // A digit against something else: the marker is made of digits too.
        lemma_key_begins(a);
        lemma_key_begins(b);
    }
}

proof fn lemma_key_empty(v: Seq<char>)
    ensures
        key_text(v).len() == 0 <==> v.len() == 0,
{
}

/// Where [`worth_keying`] says no, the key would have produced the order the
/// column already had.
pub proof fn saying_no_means_the_key_changes_nothing(values: Seq<Seq<char>>, i: int, j: int)
    requires
        !uneven(values),
        0 <= i < values.len(),
        0 <= j < values.len(),
        forall|k: int, n: int|
            0 <= k < values.len() && 0 <= n < run_lens(values[k]).len() ==> #[trigger] run_lens(
                values[k],
            )[n] <= MAX_RUN,
    ensures
        before(key_text(values[i]), key_text(values[j])) == before(values[i], values[j]),
{
    let a = values[i];
    let b = values[j];
    assert forall|n: int| 0 <= n < run_lens(a).len() && n < run_lens(b).len() implies #[trigger] run_lens(a)[n]
        == #[trigger] run_lens(b)[n] by {
        assert(runs_of(values[i])[n] == runs_of(values[j])[n]);
    }
    equal_length_runs_keep_their_order(a, b);
}

/// Text with no digits in it keys to itself.
pub proof fn text_without_digits_keys_to_itself(v: Seq<char>)
    requires
        forall|i: int| 0 <= i < v.len() ==> !is_digit(#[trigger] v[i]),
    ensures
        key_text(v) == v,
    decreases v.len(),
{
    if v.len() > 0 {
        let rest = v.skip(1);
        assert forall|i: int| 0 <= i < rest.len() implies !is_digit(#[trigger] rest[i]) by {
            assert(rest[i] == v[i + 1]);
        }
        text_without_digits_keys_to_itself(rest);
        assert(key_text(v) =~= v);
    } else {
        assert(key_text(v) =~= v);
    }
}

/// Where nothing that follows begins with a digit, a digit run and what follows
/// it are known from the two together.
proof fn lemma_run_told(a: Seq<char>, b: Seq<char>, x: Seq<char>, y: Seq<char>)
    requires
        digits(a),
        digits(b),
        stops(x),
        stops(y),
        a + x == b + y,
    ensures
        a == b,
        x == y,
{
    lemma_whole_run(a, x);
    lemma_whole_run(b, y);
    assert(a =~= (a + x).take(a.len() as int));
    assert(b =~= (b + y).take(b.len() as int));
    assert(x =~= (a + x).skip(a.len() as int));
    assert(y =~= (b + y).skip(b.len() as int));
}

/// Zeros and a one are not how the key of a run begins.
proof fn lemma_not_keyed(front: Seq<char>, x: Seq<char>, v: Seq<char>)
    requires
        front.len() > 0,
        forall|i: int| 0 <= i < front.len() ==> #[trigger] front[i] == '0',
        stops(x),
    ensures
        front.push('1') + x != key_text(v),
{
    let s = front.push('1') + x;
    if s == key_text(v) {
        lemma_key_begins(v);
        assert(s[0] == '0');
        if v.len() > 0 && is_digit(v[0]) {
            let n = run_len(v) as int;
            lemma_run_len(v);
            let (run, rest) = (v.take(n), v.skip(n));
            assert forall|i: int| 0 <= i < run.len() implies is_digit(#[trigger] run[i]) by {
                assert(run[i] == v[i]);
            }
            let sig = significant(run);
            lemma_counting(run);
            let kr = key_text(rest);
            assert(s =~= marker(sig) + (written(run) + kr));
            assert(s[0] == digit(sig / 100) && s[1] == digit(sig / 10) && s[2] == digit(sig));
            if sig == 0 {
                // Nothing but zeros, up to what is no digit.
                lemma_zeros(run);
                assert(written(run) == run);
                let z = front.len() as int;
                assert(s[z] == '1');
                lemma_key_begins(rest);
                let m = marker(0);
                assert(m[0] == '0' && m[1] == '0' && m[2] == '0');
                if z < 3 + n {
                    assert(z < 3 ==> s[z] == m[z]);
                    assert(z >= 3 ==> s[z] == run[z - 3]);
                } else {
                    if z > 3 + n {
                        assert(s[3 + n] == front[3 + n]);
                    }
                    assert(s[3 + n] == kr[0]);
                    assert(rest[0] == kr[0]);
                    assert(rest[0] == v[n]);
                }
            } else {
                // The marker holds more than zeros, and a digit follows it.
                if exact(run) {
                    lemma_exact(run);
                }
                assert(written(run).len() > 0 && is_digit(written(run)[0]));
                assert(s[3] == written(run)[0]);
                lemma_marker_counts(sig);
                let z = front.len() as int;
                if z >= 3 {
                    assert(s[0] == front[0] && s[1] == front[1] && s[2] == front[2]);
                } else {
                    assert(s[z] == '1');
                    assert(z + 1 < s.len());
                    assert(s[z + 1] == x[0]);
                    assert(is_digit(s[z + 1]));
                }
            }
        } else if v.len() > 0 {
            assert(key_text(v)[0] == v[0]);
        }
    }
}

/// A marker that counts something is not all zeros, and all of it is digits.
proof fn lemma_marker_counts(n: nat)
    requires
        0 < n <= MAX_RUN,
    ensures
        marker(n)[0] != '0' || marker(n)[1] != '0' || marker(n)[2] != '0',
        is_digit(marker(n)[0]) && is_digit(marker(n)[1]) && is_digit(marker(n)[2]),
{
    let (m2, m1, m0) = (n / 100, (n / 10) % 10, n % 10);
    assert(digit(n / 10) == digit(m1) && digit(n) == digit(m0));
    lemma_digits(m2, 0);
    lemma_digits(m1, 0);
    lemma_digits(m0, 0);
    assert(digit(0) == '0');
}

/// Leading zeros are told from what ends them.
proof fn lemma_zeros_told(a: Seq<char>, b: Seq<char>, x: Seq<char>, y: Seq<char>)
    requires
        forall|i: int| 0 <= i < a.len() ==> #[trigger] a[i] == '0',
        forall|i: int| 0 <= i < b.len() ==> #[trigger] b[i] == '0',
        a.push('1') + x == b.push('1') + y,
    ensures
        a == b,
        x == y,
{
    let s = a.push('1') + x;
    let t = b.push('1') + y;
    if a.len() < b.len() {
        assert(s[a.len() as int] == '1');
        assert(t[a.len() as int] == b[a.len() as int]);
    } else if b.len() < a.len() {
        assert(t[b.len() as int] == '1');
        assert(s[b.len() as int] == a[b.len() as int]);
    }
    assert(a =~= b);
    assert(x =~= s.skip(a.len() as int + 1));
    assert(y =~= t.skip(b.len() as int + 1));
}

/// A tail with zeros in it is not the key of what follows a run without.
proof fn lemma_tail_is_no_key(run: Seq<char>, x: Seq<char>, v: Seq<char>)
    requires
        zeros(run) > 0,
        stops(x),
        stops(v),
    ensures
        tail(run) + x != key_text(v),
{
    let zs = run.take(zeros(run) as int);
    let s = tail(run) + x;
    lemma_zeros(run);
    if s == key_text(v) {
        lemma_key_begins(v);
        assert(s[0] == LAST);
        assert(v.len() > 0 && v[0] == LAST);
        assert(key_text(v.skip(1)) =~= key_text(v).skip(1));
        assert(s.skip(1) =~= zs.push('1') + x);
        lemma_not_keyed(zs, x, v.skip(1));
    }
}

/// What is written behind the digits that count tells the leading zeros, and
/// what follows the run.
proof fn lemma_tail_told(ra: Seq<char>, rb: Seq<char>, x: Seq<char>, y: Seq<char>)
    requires
        stops(x),
        stops(y),
        tail(ra) + key_text(x) == tail(rb) + key_text(y),
    ensures
        ra.take(zeros(ra) as int) == rb.take(zeros(rb) as int),
        zeros(ra) == zeros(rb),
        key_text(x) == key_text(y),
{
    let (kx, ky) = (key_text(x), key_text(y));
    let (ua, ub) = (tail(ra) + kx, tail(rb) + ky);
    let (za, zb) = (ra.take(zeros(ra) as int), rb.take(zeros(rb) as int));
    lemma_zeros(ra);
    lemma_zeros(rb);
    lemma_key_begins(x);
    lemma_key_begins(y);
    if zeros(ra) > 0 && zeros(rb) > 0 {
        assert(ua.skip(1) =~= za.push('1') + kx);
        assert(ub.skip(1) =~= zb.push('1') + ky);
        lemma_zeros_told(za, zb, kx, ky);
        assert(za.len() == zeros(ra) && zb.len() == zeros(rb));
    } else if zeros(ra) > 0 {
        assert(ub =~= ky);
        lemma_tail_is_no_key(ra, kx, y);
    } else if zeros(rb) > 0 {
        assert(ua =~= kx);
        lemma_tail_is_no_key(rb, ky, x);
    } else {
        assert(za =~= zb);
        assert(ua =~= kx);
        assert(ub =~= ky);
    }
}

proof fn lemma_exact_told(ra: Seq<char>, rb: Seq<char>, x: Seq<char>, y: Seq<char>)
    requires
        digits(ra),
        digits(rb),
        exact(ra),
        exact(rb),
        stops(x),
        stops(y),
        significant(ra) == significant(rb),
        written(ra) + key_text(x) == written(rb) + key_text(y),
    ensures
        ra == rb,
        key_text(x) == key_text(y),
{
    let (kx, ky) = (key_text(x), key_text(y));
    lemma_exact(ra);
    lemma_exact(rb);
    let (ua, ub) = (tail(ra) + kx, tail(rb) + ky);
    let n = lead(ra).len() as int;
    assert(written(ra) + kx =~= lead(ra) + ua);
    assert(written(rb) + ky =~= lead(rb) + ub);
    assert(lead(ra) =~= (lead(ra) + ua).take(n));
    assert(lead(rb) =~= (lead(rb) + ub).take(n));
    assert(ua =~= (lead(ra) + ua).skip(n));
    assert(ub =~= (lead(rb) + ub).skip(n));
    lemma_tail_told(ra, rb, x, y);
    lemma_counting(ra);
    lemma_counting(rb);
    lemma_same_count(counting(ra), counting(rb));
}

/// A run and the key of what follows it are known from what is written.
proof fn lemma_keyed_told(ra: Seq<char>, rb: Seq<char>, x: Seq<char>, y: Seq<char>)
    requires
        digits(ra),
        digits(rb),
        stops(x),
        stops(y),
        keyed(ra) + key_text(x) == keyed(rb) + key_text(y),
    ensures
        ra == rb,
        key_text(x) == key_text(y),
{
    let (kx, ky) = (key_text(x), key_text(y));
    let (sa, sb) = (significant(ra), significant(rb));
    let (ta, tb) = (written(ra) + kx, written(rb) + ky);
    assert(keyed(ra) + kx =~= marker(sa) + ta);
    assert(keyed(rb) + ky =~= marker(sb) + tb);
    lemma_markers(sa, sb, ta, tb);
    lemma_markers(sb, sa, tb, ta);
    lemma_not_before_itself(marker(sa) + ta);
    assert(sa == sb);
    assert(ta =~= (marker(sa) + ta).skip(3));
    assert(tb =~= (marker(sb) + tb).skip(3));
    if exact(ra) {
        lemma_exact_told(ra, rb, x, y);
    } else {
        lemma_key_begins(x);
        lemma_key_begins(y);
        lemma_run_told(ra, rb, kx, ky);
    }
}

/// No two texts share a key, so none are tied.
pub proof fn keys_are_never_tied(a: Seq<char>, b: Seq<char>)
    requires
        key_text(a) == key_text(b),
    ensures
        a == b,
    decreases a.len(),
{
    let ka = key_text(a);
    let kb = key_text(b);
    lemma_key_empty(a);
    lemma_key_empty(b);
    if a.len() == 0 || b.len() == 0 {
        assert(a =~= b);
    } else if is_digit(a[0]) && is_digit(b[0]) {
        let n = run_len(a) as int;
        let m = run_len(b) as int;
        lemma_run_len(a);
        lemma_run_len(b);
        let (ra, xa) = (a.take(n), a.skip(n));
        let (rb, xb) = (b.take(m), b.skip(m));
        lemma_key_begins(xa);
        lemma_key_begins(xb);
        assert forall|i: int| 0 <= i < ra.len() implies is_digit(#[trigger] ra[i]) by {
            assert(ra[i] == a[i]);
        }
        assert forall|i: int| 0 <= i < rb.len() implies is_digit(#[trigger] rb[i]) by {
            assert(rb[i] == b[i]);
        }
        lemma_keyed_told(ra, rb, xa, xb);
        keys_are_never_tied(xa, xb);
        assert(a =~= ra + xa);
        assert(b =~= rb + xb);
    } else {
        lemma_key_begins(a);
        lemma_key_begins(b);
        assert(key_text(a.skip(1)) =~= ka.skip(1));
        assert(key_text(b.skip(1)) =~= kb.skip(1));
        keys_are_never_tied(a.skip(1), b.skip(1));
        assert(a =~= seq![a[0]] + a.skip(1));
        assert(b =~= seq![b[0]] + b.skip(1));
    }
}

proof fn lemma_key_begins(v: Seq<char>)
    ensures
        v.len() > 0 ==> key_text(v).len() > 0 && (if is_digit(v[0]) {
            is_digit(key_text(v)[0])
        } else {
            key_text(v)[0] == v[0]
        }),
        v.len() == 0 ==> key_text(v).len() == 0,
{
}

/// Does not go on with a digit.
pub open spec fn stops(rest: Seq<char>) -> bool {
    rest.len() > 0 ==> !is_digit(rest[0])
}

proof fn lemma_whole_run(run: Seq<char>, rest: Seq<char>)
    requires
        forall|i: int| 0 <= i < run.len() ==> is_digit(#[trigger] run[i]),
        stops(rest),
    ensures
        run_len(run + rest) == run.len(),
    decreases run.len(),
{
    if run.len() == 0 {
        assert(run + rest =~= rest);
    } else {
        lemma_whole_run(run.drop_first(), rest);
        assert((run + rest).drop_first() =~= run.drop_first() + rest);
    }
}

/// Does not end in a digit.
pub open spec fn breaks_off(front: Seq<char>) -> bool {
    front.len() > 0 ==> !is_digit(front.last())
}

proof fn lemma_key_after(front: Seq<char>, v: Seq<char>)
    requires
        breaks_off(front),
    ensures
        key_text(front + v) == key_text(front) + key_text(v),
    decreases front.len(),
{
    if front.len() == 0 {
        assert(front + v =~= v);
        assert(key_text(front) + key_text(v) =~= key_text(v));
    } else {
        lemma_run_len(front);
        let n = if is_digit(front[0]) {
            run_len(front) as int
        } else {
            1
        };
        if n == front.len() && is_digit(front[0]) {
            assert(is_digit(front[n - 1]));
        }
        let (run, rest) = (front.take(n), front.skip(n));
        assert(front =~= run + rest);
        assert((front + v).skip(n) =~= rest + v);
        assert((front + v).take(n) =~= run);
        if is_digit(front[0]) {
            assert forall|i: int| 0 <= i < run.len() implies is_digit(#[trigger] run[i]) by {
                assert(run[i] == front[i]);
            }
            lemma_whole_run(run, rest + v);
            assert(run + (rest + v) =~= front + v);
        }
        if rest.len() > 0 {
            assert(rest.last() == front.last());
        }
        lemma_key_after(rest, v);
        assert(key_text(front + v) =~= key_text(front) + key_text(v));
    }
}

/// The key can tell the two runs apart by what they count: the first is short
/// enough for the key to record its length, or both are at that length without
/// leading zeros.
pub open spec fn told_apart(m: Seq<char>, n: Seq<char>) -> bool {
    ||| counting(m).len() < MAX_RUN
    ||| m.len() == n.len() == MAX_RUN && zeros(m) == zeros(n) == 0
}

/// What follows the first number is not taken for what stands behind the number
/// below one with leading zeros.
pub open spec fn is_kept_apart(m: Seq<char>, n: Seq<char>, x: Seq<char>) -> bool {
    zeros(m) == 0 && zeros(n) > 0 && x.len() > 0 ==> x[0] != LAST
}

/// The number that counts less comes first as it is written, where both have as
/// many digits that count.
proof fn lemma_exact_order(m: Seq<char>, n: Seq<char>, x: Seq<char>, y: Seq<char>)
    requires
        digits(m),
        digits(n),
        exact(m),
        exact(n),
        significant(m) == significant(n),
        count(m) < count(n),
        is_kept_apart(m, n, x),
    ensures
        before(written(m) + x, written(n) + y),
{
    lemma_exact(m);
    lemma_exact(n);
    let (tm, tn) = (tail(m) + x, tail(n) + y);
    assert(written(m) + x =~= lead(m) + tm);
    assert(written(n) + y =~= lead(n) + tn);
    if count(lead(m)) < count(lead(n)) {
        lemma_lower_count(lead(m), lead(n), tm, tn);
    } else {
        // The number below one with leading zeros.
        lemma_same_count(lead(m), lead(n));
        lemma_before_front(lead(m), tm, tn);
        assert(tn[0] == LAST);
        assert(tm =~= x);
        if x.len() > 0 {
            lemma_last(x[0]);
        }
    }
}

/// No character comes behind the last.
proof fn lemma_last(c: char)
    ensures
        c <= LAST,
{
}

proof fn lemma_keyed_order(m: Seq<char>, n: Seq<char>, x: Seq<char>, y: Seq<char>)
    requires
        digits(m),
        digits(n),
        told_apart(m, n),
        count(m) < count(n),
        counting(m).len() == counting(n).len() ==> is_kept_apart(m, n, x),
    ensures
        before(keyed(m) + x, keyed(n) + y),
{
    let (sm, sn) = (significant(m), significant(n));
    let (wm, wn) = (written(m), written(n));
    assert(keyed(m) + x =~= marker(sm) + (wm + x));
    assert(keyed(n) + y =~= marker(sn) + (wn + y));
    lemma_markers(sm, sn, wm + x, wn + y);
    lemma_counting(m);
    lemma_counting(n);
    if counting(n).len() < counting(m).len() {
        lemma_longer_counts_more(counting(n), counting(m));
    }
    if sm == sn && exact(m) {
        lemma_exact_order(m, n, x, y);
    } else if sm == sn {
        if counting(m).len() == 0 {
            assert(counting(m) =~= counting(n));
        } else {
            lemma_lower_count(m, n, x, y);
        }
    }
}

/// Behind the same words, numbers order by what they count, with leading zeros
/// or without.
pub proof fn numbers_order_by_what_they_count(
    front: Seq<char>,
    m: Seq<char>,
    n: Seq<char>,
    x: Seq<char>,
    y: Seq<char>,
)
    requires
        breaks_off(front),
        digits(m),
        digits(n),
        m.len() > 0,
        n.len() > 0,
        stops(x),
        stops(y),
        told_apart(m, n),
        is_kept_apart(m, n, x),
        count(m) < count(n),
    ensures
        before(key_text(front + m + x), key_text(front + n + y)),
{
    lemma_key_after(front, m + x);
    lemma_key_after(front, n + y);
    assert(front + m + x =~= front + (m + x));
    assert(front + n + y =~= front + (n + y));
    lemma_before_front(key_text(front), key_text(m + x), key_text(n + y));
    lemma_key_of_run(m, x);
    lemma_key_of_run(n, y);
    lemma_key_begins(x);
    lemma_keyed_order(m, n, key_text(x), key_text(y));
}

proof fn lemma_key_of_run(run: Seq<char>, rest: Seq<char>)
    requires
        digits(run),
        run.len() > 0,
        stops(rest),
    ensures
        key_text(run + rest) == keyed(run) + key_text(rest),
{
    let n = run.len() as int;
    lemma_whole_run(run, rest);
    assert((run + rest).take(n) =~= run);
    assert((run + rest).skip(n) =~= rest);
    assert((run + rest)[0] == run[0]);
}

proof fn lemma_not_before_itself(a: Seq<char>)
    ensures
        !before(a, a),
    decreases a.len(),
{
    if a.len() > 0 {
        lemma_not_before_itself(a.drop_first());
    }
}

} // verus!
