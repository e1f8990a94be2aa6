use vstd::prelude::*;
use vstd::seq_lib::{to_multiset_build, to_multiset_contains, to_multiset_insert};
use crate::decimal::{decimal_text, push_decimal};
use crate::reading::Reading;
use crate::store::valid_reading;
use crate::time::{local_time_text, seconds_in_range};

verus! {

/// No reading comes before a later one.
pub open spec fn newest_first(s: Seq<Reading>) -> bool {
    forall|i: int, j: int| 0 <= i < j < s.len() ==> s[i].timestamp >= s[j].timestamp
}

/// `sorted` holds the readings of `rs`, each as often, newest first.
pub open spec fn is_newest_first_of(sorted: Seq<Reading>, rs: Seq<Reading>) -> bool {
    sorted.to_multiset() == rs.to_multiset() && newest_first(sorted)
}

/// How many readings a report over `n` of them with the given limit holds.
pub open spec fn report_len(n: nat, limit: nat) -> nat {
    if n < limit {
        n
    } else {
        limit
    }
}

/// `out` is a report over `rs`: the `limit` most recent readings of `rs`
/// (all of them, where there are fewer), newest first. Readings taken in the
/// same second may stand in either order.
pub open spec fn is_report(out: Seq<Reading>, rs: Seq<Reading>, limit: nat) -> bool {
    exists|sorted: Seq<Reading>|
        #[trigger] is_newest_first_of(sorted, rs) && out == sorted.take(report_len(rs.len(), limit) as int)
}

/// Puts the readings in order, newest first.
pub fn sort_newest_first(readings: &Vec<Reading>) -> (r: Vec<Reading>)
    ensures
        is_newest_first_of(r@, readings@),
{
    let mut out: Vec<Reading> = Vec::new();
    let mut i: usize = 0;
    assert(readings@.take(0) =~= out@);
    while i < readings.len()
        invariant
            i <= readings@.len(),
            out@.to_multiset() == readings@.take(i as int).to_multiset(),
            newest_first(out@),
        decreases readings@.len() - i,
    {
        let x = readings[i];
        let mut k: usize = 0;
        while k < out.len() && out[k].timestamp >= x.timestamp
            invariant
                k <= out@.len(),
                forall|m: int| 0 <= m < k ==> out@[m].timestamp >= x.timestamp,
            decreases out@.len() - k,
        {
            k = k + 1;
        }
        let ghost before = out@;
        proof {
            before.insert_ensures(k as int, x);
            to_multiset_insert(before, k as int, x);
            to_multiset_build(readings@.take(i as int), x);
            assert(readings@.take(i + 1) =~= readings@.take(i as int).push(x));
        }
        out.insert(k, x);
        assert(newest_first(out@)) by {
            assert forall|a: int, b: int| 0 <= a < b < out@.len() implies out@[a].timestamp
                >= out@[b].timestamp by {
                if b < k {
                } else if b == k {
                } else if a < k {
                    assert(out@[b] == before[b - 1]);
                    assert(before[k as int].timestamp < x.timestamp);
                } else if a == k {
                    assert(out@[b] == before[b - 1]);
                    assert(before[k as int].timestamp < x.timestamp);
                } else {
                    assert(out@[a] == before[a - 1]);
                    assert(out@[b] == before[b - 1]);
                }
            }
        }
        i = i + 1;
    }
    assert(readings@.take(i as int) =~= readings@);
    out
}

/// The most recent readings, newest first: as many as `limit`, or all of
/// them where there are fewer.
pub fn report(readings: &Vec<Reading>, limit: usize) -> (r: Vec<Reading>)
    ensures
        is_report(r@, readings@, limit as nat),
        r@.len() == report_len(readings@.len(), limit as nat),
{
    let sorted = sort_newest_first(readings);
    let n: usize = if sorted.len() < limit {
        sorted.len()
    } else {
        limit
    };
    proof {
        sorted@.to_multiset_ensures();
        readings@.to_multiset_ensures();
    }
    let mut out: Vec<Reading> = Vec::new();
    let mut i: usize = 0;
    while i < n
        invariant
            n <= sorted@.len(),
            i <= n,
            out@ == sorted@.take(i as int),
        decreases n - i,
    {
        out.push(sorted[i]);
        i = i + 1;
        assert(out@ =~= sorted@.take(i as int));
    }
    assert(is_newest_first_of(sorted@, readings@));
    out
}

/// Within a report, a reading stands after every reading taken later, and a
/// reading left out of it is no later than any reading in it.
pub proof fn lemma_report_order(out: Seq<Reading>, rs: Seq<Reading>, limit: nat, a: Reading, b: Reading)
    requires
        is_report(out, rs, limit),
        out.contains(a),
        rs.contains(b),
        a.timestamp < b.timestamp,
    ensures
        out.contains(b),
        forall|i: int, j: int|
            0 <= i < out.len() && 0 <= j < out.len() && out[i] == a && out[j] == b ==> j < i,
{
    let sorted = choose|sorted: Seq<Reading>|
        #[trigger] is_newest_first_of(sorted, rs) && out == sorted.take(report_len(rs.len(), limit) as int);
    let n = report_len(rs.len(), limit) as int;
    sorted.to_multiset_ensures();
    rs.to_multiset_ensures();
    to_multiset_contains(rs, b);
    to_multiset_contains(sorted, b);
    let p = choose|p: int| 0 <= p < out.len() && out[p] == a;
    let q = choose|q: int| 0 <= q < sorted.len() && sorted[q] == b;
    assert(sorted[p] == a);
    if q >= p {
        assert(sorted[p].timestamp >= sorted[q].timestamp);
    }
    assert(out[q] == b);
}

pub const TAB: u8 = 9;

pub const SLASH: u8 = 47;

/// The text between a reading's time and its pressures.
pub open spec fn pressure_label() -> Seq<u8> {
    seq![TAB, 66, 80, 58, 32]
}

/// The text between a reading's pressures and its pulse.
pub open spec fn pulse_label() -> Seq<u8> {
    seq![TAB, 80, 117, 108, 115, 101, 58, 32]
}

/// One line of a report: `<time>\tBP: <systolic>/<diastolic>\tPulse: <pulse>`.
pub open spec fn report_line(time_text: Seq<u8>, r: Reading) -> Seq<u8> {
    time_text + pressure_label() + decimal_text(r.systolic as nat) + seq![SLASH] + decimal_text(
        r.diastolic as nat,
    ) + pulse_label() + decimal_text(r.pulse as nat)
}

/// Writes the report line of `r`, given the text of its time.
pub fn format_line(time_text: &[u8], r: &Reading) -> (v: Vec<u8>)
    ensures
        v@ == report_line(time_text@, *r),
{
    let mut v: Vec<u8> = Vec::new();
    let mut i: usize = 0;
    while i < time_text.len()
        invariant
            i <= time_text@.len(),
            v@ == time_text@.take(i as int),
        decreases time_text@.len() - i,
    {
        v.push(time_text[i]);
        i = i + 1;
        assert(v@ =~= time_text@.take(i as int));
    }
    assert(time_text@.take(i as int) =~= time_text@);
    v.push(TAB);
    v.push(66);
    v.push(80);
    v.push(58);
    v.push(32);
    push_decimal(&mut v, r.systolic as u64);
    v.push(SLASH);
    push_decimal(&mut v, r.diastolic as u64);
    v.push(TAB);
    v.push(80);
    v.push(117);
    v.push(108);
    v.push(115);
    v.push(101);
    v.push(58);
    v.push(32);
    push_decimal(&mut v, r.pulse as u64);
    assert(v@ =~= report_line(time_text@, *r));
    v
}

/// The report line of `r`, its time shown in the machine's local time zone;
/// `None` where chrono cannot represent the reading's instant.
pub fn describe(r: &Reading) -> (v: Option<Vec<u8>>)
    ensures
        v is Some <==> valid_reading(*r),
        v is Some ==> exists|t: Seq<u8>| v.unwrap()@ == #[trigger] report_line(t, *r),
{
    if !seconds_in_range(r.timestamp) {
        return None;
    }
    let shown = local_time_text(r.timestamp);
    let line = format_line(shown.as_slice(), r);
    assert(line@ == report_line(shown@, *r));
    Some(line)
}

} // verus!
