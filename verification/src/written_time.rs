//! What the written form of instants keeps: their order, and the instant itself.

use vstd::prelude::*;
use crate::calendar::{day_numbers_follow_dates, earlier, every_day_has_its_number};
use crate::clock::{
    at_least_zero, entry_seconds, is_written, reading, two_digits, utc_text, written_second,
    year_text, Timestamp,
};
use crate::error::TimeFault;
use crate::number::{decimal, digit, padded};
use crate::text::{text_before, text_order_is_irreflexive};

verus! {

/// Ten to a power.
spec fn power_of_ten(width: nat) -> nat
    decreases width,
{
    if width == 0 {
        1
    } else {
        10 * power_of_ten((width - 1) as nat)
    }
}

/// The last digits of a number, a fixed count of them.
spec fn last_digits(n: nat, width: nat) -> Seq<char>
    decreases width,
{
    if width == 0 {
        Seq::empty()
    } else {
        last_digits(n / 10, (width - 1) as nat).push(digit((n % 10) as int))
    }
}

proof fn lemma_padded_is_last_digits(n: nat, width: nat)
    requires
        n < power_of_ten(width),
        width > 0,
    ensures
        padded(n, width) == last_digits(n, width),
    decreases width,
{
    let w1 = (width - 1) as nat;
    if width == 1 {
        assert(power_of_ten(0) == 1);
        assert(n < 10);
        assert(last_digits(n / 10, 0) == Seq::<char>::empty());
        assert(last_digits(n, 1) == seq![digit(n as int)]);
        assert(decimal(n) == seq![digit(n as int)]);
    } else {
        assert(n / 10 < power_of_ten(w1));
        lemma_padded_is_last_digits(n / 10, w1);
        if n >= 10 {
            assert(padded(n, width) == padded(n / 10, w1).push(digit((n % 10) as int)));
        } else {
            assert(decimal(0) == seq!['0']);
            assert(padded(0, w1) == Seq::new(w1, |i: int| '0'));
            assert(padded(n, width) == padded(0, w1).push(digit(n as int)));
        }
    }
}

proof fn lemma_order_of_concatenation(p: Seq<char>, q: Seq<char>, x: Seq<char>, y: Seq<char>)
    requires
        p.len() == q.len(),
    ensures
        text_before(p + x, q + y) == (if p == q {
            text_before(x, y)
        } else {
            text_before(p, q)
        }),
    decreases p.len(),
{
    if p.len() == 0 {
        assert(p == q);
        assert(p + x == x);
        assert(q + y == y);
    } else {
        assert((p + x).drop_first() == p.drop_first() + x);
        assert((q + y).drop_first() == q.drop_first() + y);
        assert((p + x)[0] == p[0]);
        assert((q + y)[0] == q[0]);
        if p[0] == q[0] {
            lemma_order_of_concatenation(p.drop_first(), q.drop_first(), x, y);
            if p.drop_first() == q.drop_first() {
                assert(p == seq![p[0]] + p.drop_first());
                assert(q == seq![q[0]] + q.drop_first());
                assert(p == q);
            }
        }
    }
}

proof fn lemma_equal_concatenations(p: Seq<char>, q: Seq<char>, x: Seq<char>, y: Seq<char>)
    requires
        p.len() == q.len(),
        p + x == q + y,
    ensures
        p == q,
        x == y,
{
    assert((p + x).take(p.len() as int) == p);
    assert((q + y).take(q.len() as int) == q);
    assert((p + x).skip(p.len() as int) == x);
    assert((q + y).skip(q.len() as int) == y);
}

proof fn lemma_order_of_digits(a: nat, b: nat, width: nat)
    requires
        a < power_of_ten(width),
        b < power_of_ten(width),
    ensures
        last_digits(a, width).len() == width,
        last_digits(b, width).len() == width,
        text_before(last_digits(a, width), last_digits(b, width)) <==> a < b,
        last_digits(a, width) == last_digits(b, width) <==> a == b,
    decreases width,
{
    if width > 0 {
        let w1 = (width - 1) as nat;
        assert(a / 10 < power_of_ten(w1) && b / 10 < power_of_ten(w1));
        lemma_order_of_digits(a / 10, b / 10, w1);
        let p = last_digits(a / 10, w1);
        let q = last_digits(b / 10, w1);
        let x = seq![digit((a % 10) as int)];
        let y = seq![digit((b % 10) as int)];
        assert(last_digits(a, width) == p + x);
        assert(last_digits(b, width) == q + y);
        lemma_order_of_concatenation(p, q, x, y);
        assert(x.drop_first() == Seq::<char>::empty());
        assert(y.drop_first() == Seq::<char>::empty());
        assert(!text_before(x.drop_first(), y.drop_first()));
        assert(x[0] == digit((a % 10) as int) && y[0] == digit((b % 10) as int));
        assert(text_before(x, y) <==> a % 10 < b % 10);
        if p + x == q + y {
            lemma_equal_concatenations(p, q, x, y);
            assert(x[0] == y[0]);
            assert(a % 10 == b % 10);
        }
    }
}

proof fn lemma_order_of_padded(a: nat, b: nat, width: nat)
    requires
        a < power_of_ten(width),
        b < power_of_ten(width),
        width > 0,
    ensures
        padded(a, width).len() == width,
        padded(b, width).len() == width,
        text_before(padded(a, width), padded(b, width)) <==> a < b,
        padded(a, width) == padded(b, width) <==> a == b,
{
    lemma_padded_is_last_digits(a, width);
    lemma_padded_is_last_digits(b, width);
    lemma_order_of_digits(a, b, width);
}

proof fn lemma_two_digits(a: int, b: int)
    requires
        0 <= a < 100,
        0 <= b < 100,
    ensures
        two_digits(a).len() == 2,
        two_digits(b).len() == 2,
        text_before(two_digits(a), two_digits(b)) <==> a < b,
        two_digits(a) == two_digits(b) <==> a == b,
{
    reveal_with_fuel(power_of_ten, 3);
    lemma_order_of_padded(a as nat, b as nat, 2);
}

/// Appending a number of two digits after a common separator to texts of one
/// length: the order is that of the texts first, and of the numbers then.
proof fn lemma_append_field(p: Seq<char>, q: Seq<char>, c: char, a: int, b: int)
    requires
        p.len() == q.len(),
        0 <= a < 100,
        0 <= b < 100,
    ensures
        (p + seq![c] + two_digits(a)).len() == (q + seq![c] + two_digits(b)).len(),
        text_before(p + seq![c] + two_digits(a), q + seq![c] + two_digits(b)) <==> text_before(p, q)
            || (p == q && a < b),
        p + seq![c] + two_digits(a) == q + seq![c] + two_digits(b) <==> p == q && a == b,
{
    let s = seq![c];
    lemma_two_digits(a, b);
    lemma_order_of_concatenation(p, q, s, s);
    text_order_is_irreflexive(s);
    text_order_is_irreflexive(p);
    lemma_order_of_concatenation(p + s, q + s, two_digits(a), two_digits(b));
    if p + s == q + s {
        lemma_equal_concatenations(p, q, s, s);
    }
    if p + s + two_digits(a) == q + s + two_digits(b) {
        lemma_equal_concatenations(p + s, q + s, two_digits(a), two_digits(b));
    }
}

/// What a storable instant is made of.
proof fn lemma_fields(t: Timestamp)
    requires
        t.storable(),
    ensures
        t.date().valid(),
        t.date().number() == t.day_number(),
        written_second(t) == t.second_of_day() % 60,
        0 <= t.second_of_day() < 86400,
        t.second_of_day() == t.second_of_day() / 3600 * 3600 + t.second_of_day() / 60 % 60 * 60
            + t.second_of_day() % 60,
        0 <= t.second_of_day() / 3600 < 24,
        0 <= t.second_of_day() / 60 % 60 < 60,
        t.secs == (t.day_number() - 719163) * 86400 + t.second_of_day(),
{
    every_day_has_its_number(t.day_number());
}

/// The written forms of two storable instants stand in the order of the
/// instants, and differ where the instants do.
pub proof fn written_order_is_time_order(a: Timestamp, b: Timestamp)
    requires
        a.storable(),
        b.storable(),
    ensures
        text_before(utc_text(a), utc_text(b)) <==> a.secs < b.secs,
        utc_text(a) == utc_text(b) <==> a == b,
{
    lemma_fields(a);
    lemma_fields(b);
    day_numbers_follow_dates(a.date(), b.date());
    let ya = year_text(a.date().year as int);
    let yb = year_text(b.date().year as int);
    reveal_with_fuel(power_of_ten, 5);
    lemma_order_of_padded(a.date().year as nat, b.date().year as nat, 4);

    let (ma, mb) = (a.date().month as int, b.date().month as int);
    lemma_append_field(ya, yb, '-', ma, mb);
    let pa = ya + seq!['-'] + two_digits(ma);
    let pb = yb + seq!['-'] + two_digits(mb);

    let (da, db) = (a.date().day as int, b.date().day as int);
    lemma_append_field(pa, pb, '-', da, db);
    let pa = pa + seq!['-'] + two_digits(da);
    let pb = pb + seq!['-'] + two_digits(db);
    assert(text_before(pa, pb) <==> earlier(a.date(), b.date()));
    assert(pa == pb <==> a.date() == b.date());

    let (ha, hb) = (a.second_of_day() / 3600, b.second_of_day() / 3600);
    lemma_append_field(pa, pb, 'T', ha, hb);
    let pa = pa + seq!['T'] + two_digits(ha);
    let pb = pb + seq!['T'] + two_digits(hb);

    let (ia, ib) = (a.second_of_day() / 60 % 60, b.second_of_day() / 60 % 60);
    lemma_append_field(pa, pb, ':', ia, ib);
    let pa = pa + seq![':'] + two_digits(ia);
    let pb = pb + seq![':'] + two_digits(ib);

    let (sa, sb) = (written_second(a), written_second(b));
    lemma_append_field(pa, pb, ':', sa, sb);
    let pa = pa + seq![':'] + two_digits(sa);
    let pb = pb + seq![':'] + two_digits(sb);

    let z = seq!['Z'];
    assert(utc_text(a) == pa + z);
    assert(utc_text(b) == pb + z);
    lemma_order_of_concatenation(pa, pb, z, z);
    text_order_is_irreflexive(z);
    text_order_is_irreflexive(pa);
    if pa + z == pb + z {
        lemma_equal_concatenations(pa, pb, z, z);
    }
}

/// Reading the written form of a storable instant gives the instant back.
pub proof fn written_instants_read_back(t: Timestamp)
    requires
        t.storable(),
    ensures
        reading(utc_text(t)) == Ok::<Timestamp, TimeFault>(t),
{
    assert(t.storable() && utc_text(t) == utc_text(t));
    assert(is_written(utc_text(t)));
    let read = choose|r: Timestamp| #[trigger] r.storable() && utc_text(r) == utc_text(t);
    written_order_is_time_order(read, t);
}

/// An entry that was written down at its start and at its end lasts the seconds
/// between the two, and none where the clock was set back in between.
pub proof fn recorded_time_is_the_time_between(start: Timestamp, end: Timestamp, now: Timestamp)
    requires
        start.storable(),
        end.storable(),
    ensures
        entry_seconds(utc_text(start), Some(utc_text(end)), now) == Ok::<
            int,
            TimeFault,
        >(at_least_zero(end.secs - start.secs)),
{
    written_instants_read_back(start);
    written_instants_read_back(end);
    let n = end.secs - start.secs;
    assert(n >= 0 ==> (n * 1_000_000_000) / 1_000_000_000 == n);
    assert(n < 0 ==> ((-n) * 1_000_000_000) / 1_000_000_000 == -n);
}

/// An instant without the part of a second.
pub open spec fn whole_second(t: Timestamp) -> Timestamp {
    Timestamp { secs: t.secs, nanos: 0 }
}

/// Whether the clock shows an instant of a year with four digits.
pub open spec fn can_be_written(t: Timestamp) -> bool {
    t.from_clock() && 0 <= t.date().year <= 9999
}

/// An instant is written like the whole second it lies in.
pub proof fn instants_are_written_by_the_second(t: Timestamp)
    requires
        can_be_written(t),
    ensures
        whole_second(t).storable(),
        utc_text(whole_second(t)) == utc_text(t),
{
    let whole = whole_second(t);
    assert(whole.day_number() == t.day_number());
    assert(whole.second_of_day() == t.second_of_day());
}

/// A running entry that was written down at its start lasts the whole seconds until
/// now, and none where the clock was set back.
pub proof fn running_time_is_the_time_until_now(start: Timestamp, now: Timestamp)
    requires
        can_be_written(start),
        now.from_clock(),
    ensures
        entry_seconds(utc_text(start), None, now) == Ok::<int, crate::error::TimeFault>(
            if now.secs < start.secs {
                0
            } else {
                now.secs - start.secs
            },
        ),
{
    instants_are_written_by_the_second(start);
    let whole = whole_second(start);
    written_instants_read_back(whole);
    let n = now.secs - start.secs;
    let total = n * 1_000_000_000 + now.nanos;
    if n >= 0 {
        assert(total / 1_000_000_000 == n);
    } else {
        assert(total < 0);
        assert((-total) / 1_000_000_000 >= 0);
    }
}

} // verus!
