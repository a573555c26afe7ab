//! The delimited-text renderer: a fixed header line, then one line per
//! record, except records whose average-power text was flagged as exactly
//! zero — those are omitted individually, while the record's 1-based
//! position within its instance keeps counting them.

use crate::numeric::dec_str;
use vstd::prelude::*;

verus! {

/// One computed usage record, carried as rendered numeric text: the four
/// column values and the zero flag that suppresses the row.
pub struct RenderRecord {
    pub prev_kwh: String,
    pub curr_kwh: String,
    pub daily_kwh: String,
    pub avg_power_watt: String,
    pub avg_is_zero: bool,
}

/// The mathematical shape of a record.
pub struct RenderRecordV {
    pub prev_kwh: Seq<char>,
    pub curr_kwh: Seq<char>,
    pub daily_kwh: Seq<char>,
    pub avg_power_watt: Seq<char>,
    pub avg_is_zero: bool,
}

impl View for RenderRecord {
    type V = RenderRecordV;

    open spec fn view(&self) -> RenderRecordV {
        RenderRecordV {
            prev_kwh: self.prev_kwh@,
            curr_kwh: self.curr_kwh@,
            daily_kwh: self.daily_kwh@,
            avg_power_watt: self.avg_power_watt@,
            avg_is_zero: self.avg_is_zero,
        }
    }
}

impl DeepView for RenderRecord {
    type V = RenderRecordV;

    open spec fn deep_view(&self) -> RenderRecordV {
        self.view()
    }
}

/// The fixed header line.
pub open spec fn header_text() -> Seq<char> {
    "Target,Address,Prev_kWh,Current_kWh,Daily_KWh,Avg_Power_Watt\n"@
}

/// One rendered line: empty for a zero-flagged record, else the instance,
/// the 1-based position, and the four column values, comma-separated.
pub open spec fn csv_line(k: Seq<char>, pos: nat, rec: RenderRecordV) -> Seq<char> {
    if rec.avg_is_zero {
        Seq::<char>::empty()
    } else {
        k + ","@ + dec_str(pos) + ","@ + rec.prev_kwh + ","@ + rec.curr_kwh + ","@ + rec.daily_kwh
            + ","@ + rec.avg_power_watt + "\n"@
    }
}

/// The lines of one instance, in record order, each at its unfiltered
/// 1-based position.
pub open spec fn inst_lines(k: Seq<char>, recs: Seq<RenderRecordV>) -> Seq<char>
    decreases recs.len(),
{
    if recs.len() == 0 {
        Seq::<char>::empty()
    } else {
        inst_lines(k, recs.drop_last()) + csv_line(k, recs.len(), recs.last())
    }
}

/// The body: every instance's lines, in series order.
pub open spec fn csv_body(rows: Seq<(Seq<char>, Seq<RenderRecordV>)>) -> Seq<char>
    decreases rows.len(),
{
    if rows.len() == 0 {
        Seq::<char>::empty()
    } else {
        csv_body(rows.drop_last()) + inst_lines(rows.last().0, rows.last().1)
    }
}

/// The whole rendering: the header, then the body.
pub open spec fn csv_text(rows: Seq<(Seq<char>, Seq<RenderRecordV>)>) -> Seq<char> {
    header_text() + csv_body(rows)
}

/// Renders the usage records as delimited text, exactly as `csv_text`
/// describes.
pub fn render_csv(rows: &Vec<(String, Vec<RenderRecord>)>) -> (r: String)
    ensures
        r@ == csv_text(rows.deep_view()),
{
    let ghost rv = rows.deep_view();
    let mut s = String::from_str("Target,Address,Prev_kWh,Current_kWh,Daily_KWh,Avg_Power_Watt\n");
    let mut a: usize = 0;
    proof {
        assert(rv.take(0) =~= Seq::<(Seq<char>, Seq<RenderRecordV>)>::empty());
        assert(s@ =~= header_text() + csv_body(rv.take(0)));
    }
    while a < rows.len()
        invariant
            0 <= a <= rows@.len(),
            rv == rows.deep_view(),
            rv.len() == rows@.len(),
            s@ == header_text() + csv_body(rv.take(a as int)),
        decreases rows@.len() - a,
    {
        let ghost row = rv[a as int];
        proof {
            assert(rv[a as int] == (rows@[a as int].0@, rows@[a as int].1.deep_view()));
        }
        let key = &rows[a].0;
        let recs = &rows[a].1;
        let ghost recv = recs.deep_view();
        let mut i: usize = 0;
        proof {
            assert(recv.take(0) =~= Seq::<RenderRecordV>::empty());
            assert(s@ =~= header_text() + csv_body(rv.take(a as int)) + inst_lines(
                row.0,
                recv.take(0),
            ));
        }
        while i < recs.len()
            invariant
                0 <= i <= recs@.len(),
                recv == recs.deep_view(),
                recv.len() == recs@.len(),
                row.0 == key@,
                s@ == header_text() + csv_body(rv.take(a as int)) + inst_lines(
                    row.0,
                    recv.take(i as int),
                ),
            decreases recs@.len() - i,
        {
            let ghost s_pre = s@;
            proof {
                assert(recv[i as int] == recs@[i as int]@);
                assert(recv.take(i + 1).drop_last() =~= recv.take(i as int));
                assert(recv.take(i + 1).last() == recv[i as int]);
            }
            let rec = &recs[i];
            if !rec.avg_is_zero {
                s.append(key.as_str());
                s.append(",");
                let num = crate::numeric::u64_to_string((i + 1) as u64);
                s.append(num.as_str());
                s.append(",");
                s.append(rec.prev_kwh.as_str());
                s.append(",");
                s.append(rec.curr_kwh.as_str());
                s.append(",");
                s.append(rec.daily_kwh.as_str());
                s.append(",");
                s.append(rec.avg_power_watt.as_str());
                s.append("\n");
                proof {
                    assert(s@ =~= s_pre + csv_line(row.0, (i + 1) as nat, recv[i as int]));
                }
            } else {
                proof {
                    assert(csv_line(row.0, (i + 1) as nat, recv[i as int]) =~= Seq::<
                        char,
                    >::empty());
                    assert(s@ =~= s_pre + csv_line(row.0, (i + 1) as nat, recv[i as int]));
                }
            }
            proof {
                assert(s@ =~= header_text() + csv_body(rv.take(a as int)) + inst_lines(
                    row.0,
                    recv.take(i + 1),
                ));
            }
            i = i + 1;
        }
        proof {
            assert(recv.take(recv.len() as int) =~= recv);
            assert(rv.take(a + 1).drop_last() =~= rv.take(a as int));
            assert(rv.take(a + 1).last() == rv[a as int]);
            assert(s@ =~= header_text() + csv_body(rv.take(a + 1)));
        }
        a = a + 1;
    }
    proof {
        assert(rv.take(rv.len() as int) =~= rv);
    }
    s
}

/// The header is always present: the rendering starts with the header
/// line, whatever the rows hold.
pub proof fn lemma_csv_header_prefix(rows: Seq<(Seq<char>, Seq<RenderRecordV>)>)
    ensures
        csv_text(rows).take(header_text().len() as int) == header_text(),
{
    assert((header_text() + csv_body(rows)).take(header_text().len() as int) =~= header_text());
}

proof fn lemma_inst_lines_all_zero(k: Seq<char>, recs: Seq<RenderRecordV>)
    requires
        forall|i: int| 0 <= i < recs.len() ==> (#[trigger] recs[i]).avg_is_zero,
    ensures
        inst_lines(k, recs) == Seq::<char>::empty(),
    decreases recs.len(),
{
    if recs.len() > 0 {
        lemma_inst_lines_all_zero(k, recs.drop_last());
        assert(recs.last().avg_is_zero);
        assert(inst_lines(k, recs) =~= Seq::<char>::empty());
    }
}

/// When every record of every instance is zero-flagged, the rendering is
/// the header line alone: rows are filtered individually, and the header
/// stays even when everything else is.
pub proof fn lemma_csv_all_zero_only_header(rows: Seq<(Seq<char>, Seq<RenderRecordV>)>)
    requires
        forall|a: int, i: int|
            0 <= a < rows.len() && 0 <= i < (#[trigger] rows[a]).1.len() ==> (#[trigger] rows[a].1[i]).avg_is_zero,
    ensures
        csv_text(rows) == header_text(),
    decreases rows.len(),
{
    if rows.len() == 0 {
        assert(csv_text(rows) =~= header_text());
    } else {
        let r0 = rows.drop_last();
        assert forall|a: int, i: int|
            0 <= a < r0.len() && 0 <= i < (#[trigger] r0[a]).1.len() implies (
        #[trigger] r0[a].1[i]).avg_is_zero by {
            assert(r0[a] == rows[a]);
        }
        lemma_csv_all_zero_only_header(r0);
        assert(rows.last() == rows[rows.len() - 1]);
        lemma_inst_lines_all_zero(rows.last().0, rows.last().1);
        assert(csv_body(rows) =~= csv_body(r0) + inst_lines(rows.last().0, rows.last().1));
        assert(csv_text(r0) == header_text());
        assert(csv_body(r0) =~= Seq::<char>::empty()) by {
            assert(header_text() + csv_body(r0) == header_text());
            assert((header_text() + csv_body(r0)).len() == header_text().len());
        }
        assert(csv_text(rows) =~= header_text());
    }
}

} // verus!
