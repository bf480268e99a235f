//! The CSV export: exact bytes for a snapshot of the statistics store —
//! a fixed header row, then one row per record with the counters in decimal
//! and the last probe time rendered as a UTC timestamp, or `N/A` when no
//! probe has completed.

use vstd::prelude::*;
use crate::digits::{dec_digits, u64_to_dec};
use crate::stat::{PingStat, StatModel};

verus! {

/// The text that chrono renders for this many seconds since the Unix epoch.
pub uninterp spec fn utc_text_of(secs: u64) -> Seq<u8>;

/// Timestamps rendered with a four-digit year stay below this many seconds.
pub const MAX_RENDERED_SECS: u64 = 253402300800;

/// Relies on chrono's `DateTime::<Utc>::from_timestamp` and its
/// `%Y-%m-%d %H:%M:%S` formatting: for seconds below the year 10000 the
/// timestamp exists and the rendered text depends on the seconds alone.
#[verifier::external_body]
fn utc_text(secs: u64) -> (r: Vec<u8>)
    requires
        secs < MAX_RENDERED_SECS,
    ensures
        r@ == utc_text_of(secs),
{
    match chrono::DateTime::<chrono::Utc>::from_timestamp(secs as i64, 0) {
        Some(dt) => dt.format("%Y-%m-%d %H:%M:%S").to_string().into_bytes(),
        None => Vec::new(),
    }
}

/// The header row: `IP,Pass,Fail,Disconnected Time (ms),Last Probe Time`
/// and a line break.
#[verifier::opaque]
pub open spec fn csv_header() -> Seq<u8> {
    seq![73u8, 80u8, 44u8, 80u8, 97u8, 115u8, 115u8, 44u8, 70u8, 97u8, 105u8, 108u8, 44u8, 68u8, 105u8, 115u8, 99u8, 111u8, 110u8, 110u8, 101u8, 99u8, 116u8, 101u8, 100u8, 32u8, 84u8, 105u8, 109u8, 101u8, 32u8, 40u8, 109u8, 115u8, 41u8, 44u8, 76u8, 97u8, 115u8, 116u8, 32u8, 80u8, 114u8, 111u8, 98u8, 101u8, 32u8, 84u8, 105u8, 109u8, 101u8, 10u8]
}

/// The bytes of `N/A`.
pub open spec fn na_text() -> Seq<u8> {
    seq![78u8, 47u8, 65u8]
}

/// The last-probe-time field: `N/A` while no probe has completed or when
/// the time lies beyond what a four-digit year can render, else the UTC
/// rendering of the probe's wall-clock seconds.
pub open spec fn time_field(last_probe_ms: int) -> Seq<u8> {
    if last_probe_ms == 0 {
        na_text()
    } else if last_probe_ms / 1000 < MAX_RENDERED_SECS {
        utc_text_of((last_probe_ms / 1000) as u64)
    } else {
        na_text()
    }
}

/// One record's row: the four comma-separated fields and the time field,
/// ended by a line break.
pub open spec fn csv_row(m: StatModel) -> Seq<u8> {
    m.ip + seq![44u8] + dec_digits(m.pass as nat) + seq![44u8] + dec_digits(m.fail as nat)
        + seq![44u8] + dec_digits(m.disconnected_time as nat) + seq![44u8]
        + time_field(m.last_probe_ms) + seq![10u8]
}

/// All rows, in the order of the snapshot.
pub open spec fn csv_rows(rows: Seq<StatModel>) -> Seq<u8>
    decreases rows.len(),
{
    if rows.len() == 0 {
        Seq::empty()
    } else {
        csv_rows(rows.drop_last()) + csv_row(rows.last())
    }
}

/// The whole export: the header, then one row per record.
pub open spec fn csv_of(rows: Seq<StatModel>) -> Seq<u8> {
    csv_header() + csv_rows(rows)
}

/// Append a whole byte string.
fn push_bytes(out: &mut Vec<u8>, b: &Vec<u8>)
    ensures
        final(out)@ == old(out)@ + b@,
{
    let mut i: usize = 0;
    while i < b.len()
        invariant
            i <= b@.len(),
            out@ == old(out)@ + b@.subrange(0, i as int),
        decreases b@.len() - i,
    {
        out.push(b[i]);
        proof {
            assert(old(out)@ + b@.subrange(0, (i + 1) as int)
                =~= (old(out)@ + b@.subrange(0, i as int)).push(b@[i as int]));
        }
        i = i + 1;
    }
    proof {
        assert(out@ =~= old(out)@ + b@);
    }
}

/// Append the header row.
#[verifier::rlimit(100)]
fn push_header(out: &mut Vec<u8>)
    ensures
        final(out)@ == old(out)@ + csv_header(),
{
    proof {
        reveal(csv_header);
    }
    out.push(73);
    out.push(80);
    out.push(44);
    out.push(80);
    out.push(97);
    out.push(115);
    out.push(115);
    out.push(44);
    out.push(70);
    out.push(97);
    out.push(105);
    out.push(108);
    out.push(44);
    out.push(68);
    out.push(105);
    out.push(115);
    out.push(99);
    out.push(111);
    out.push(110);
    out.push(110);
    out.push(101);
    out.push(99);
    out.push(116);
    out.push(101);
    out.push(100);
    out.push(32);
    out.push(84);
    out.push(105);
    out.push(109);
    out.push(101);
    out.push(32);
    out.push(40);
    out.push(109);
    out.push(115);
    out.push(41);
    out.push(44);
    out.push(76);
    out.push(97);
    out.push(115);
    out.push(116);
    out.push(32);
    out.push(80);
    out.push(114);
    out.push(111);
    out.push(98);
    out.push(101);
    out.push(32);
    out.push(84);
    out.push(105);
    out.push(109);
    out.push(101);
    out.push(10);
    proof {
        assert(out@ =~= old(out)@ + csv_header());
    }
}

/// Render a snapshot as the CSV export, row for row in snapshot order.
#[verifier::rlimit(100)]
pub fn csv_export(rows: &Vec<PingStat>) -> (out: Vec<u8>)
    ensures
        out@ == csv_of(rows@.map_values(|p: PingStat| p@)),
{
    let ghost models = rows@.map_values(|p: PingStat| p@);
    let mut out: Vec<u8> = Vec::new();
    push_header(&mut out);
    proof {
        assert(out@ =~= csv_header());
    }
    let mut i: usize = 0;
    while i < rows.len()
        invariant
            i <= rows@.len(),
            models == rows@.map_values(|p: PingStat| p@),
            out@ == csv_header() + csv_rows(models.subrange(0, i as int)),
        decreases rows@.len() - i,
    {
        let ghost pre = out@;
        let row = &rows[i];
        push_bytes(&mut out, &row.ip);
        out.push(44);
        let pass_text = u64_to_dec(row.pass);
        push_bytes(&mut out, &pass_text);
        out.push(44);
        let fail_text = u64_to_dec(row.fail);
        push_bytes(&mut out, &fail_text);
        out.push(44);
        let down_text = u64_to_dec(row.disconnected_time);
        push_bytes(&mut out, &down_text);
        out.push(44);
        if row.last_probe_ms == 0 {
            out.push(78);
            out.push(47);
            out.push(65);
        } else {
            let secs = row.last_probe_ms / 1000;
            if secs < MAX_RENDERED_SECS {
                let t = utc_text(secs);
                push_bytes(&mut out, &t);
            } else {
                out.push(78);
                out.push(47);
                out.push(65);
            }
        }
        out.push(10);
        proof {
            assert(models[i as int] == row@);
            assert(out@ =~= pre + csv_row(models[i as int]));
            assert(models.subrange(0, (i + 1) as int).drop_last()
                =~= models.subrange(0, i as int));
            assert(models.subrange(0, (i + 1) as int).last() == models[i as int]);
            assert(out@ =~= csv_header() + csv_rows(models.subrange(0, (i + 1) as int)));
        }
        i = i + 1;
    }
    proof {
        assert(models.subrange(0, models.len() as int) =~= models);
    }
    out
}

} // verus!
