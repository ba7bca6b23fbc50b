//! The bundle's `log.md`: a head (usually the `# Update Log` title), then
//! one `## date` section per day, newest first, each listing its entries
//! (`* **Kind**: text`), one per line. Blank lines carry no meaning.
use vstd::prelude::*;
use crate::text::{chars_of, extend_all, has_prefix, join_with, lines, string_of, trim, views};

verus! {

broadcast use vstd::string::group_string_axioms;

/// One day of the log: its date and its entry lines.
#[derive(Debug)]
pub struct LogDay {
    pub date: String,
    pub entries: Vec<String>,
}

/// A parsed `log.md`.
#[derive(Debug)]
pub struct Log {
    /// The non-blank lines before the first day.
    pub head: Vec<String>,
    /// The days, in file order.
    pub days: Vec<LogDay>,
}

/// A day as sequences.
pub type DayView = (Seq<char>, Seq<Seq<char>>);

/// A log as sequences: head lines and days.
pub struct LogView {
    pub head: Seq<Seq<char>>,
    pub days: Seq<DayView>,
}

impl LogDay {
    pub open spec fn view(&self) -> DayView {
        (self.date@, crate::concept_id::texts(self.entries@))
    }
}

/// The views of a list of days.
pub open spec fn day_views(v: Seq<LogDay>) -> Seq<DayView> {
    v.map_values(|d: LogDay| d@)
}

impl Log {
    pub open spec fn view(&self) -> LogView {
        LogView { head: crate::concept_id::texts(self.head@), days: day_views(self.days@) }
    }
}

/// The date a `## date` line opens.
pub open spec fn day_heading(line: Seq<char>) -> Option<Seq<char>> {
    if has_prefix(line, "## "@) {
        Some(trim(line.subrange(3, line.len() as int)))
    } else {
        None
    }
}

/// The log the first `i` lines read as.
pub open spec fn parse_upto(ls: Seq<Seq<char>>, i: int) -> LogView
    decreases i,
{
    if i <= 0 {
        LogView { head: seq![], days: seq![] }
    } else {
        let p = parse_upto(ls, i - 1);
        let l = ls[i - 1];
        match day_heading(l) {
            Some(d) => LogView { head: p.head, days: p.days.push((d, seq![])) },
            None => if trim(l).len() == 0 {
                p
            } else if p.days.len() == 0 {
                LogView { head: p.head.push(l), days: p.days }
            } else {
                let last = p.days.last();
                LogView { head: p.head, days: p.days.update(p.days.len() - 1, (last.0, last.1.push(l))) }
            },
        }
    }
}

/// The log a text reads as.
pub open spec fn parse_log(text: Seq<char>) -> LogView {
    parse_upto(lines(text), lines(text).len() as int)
}

/// One day as text.
pub open spec fn day_text(d: DayView) -> Seq<char> {
    "## "@ + d.0 + "\n"@ + entries_text(d.1, d.1.len() as int)
}

/// The first `n` entry lines, each ending in a newline.
pub open spec fn entries_text(es: Seq<Seq<char>>, n: int) -> Seq<char>
    decreases n,
{
    if n <= 0 {
        seq![]
    } else {
        entries_text(es, n - 1) + es[n - 1] + "\n"@
    }
}

/// The first `n` days as text, separated by blank lines.
pub open spec fn days_text(ds: Seq<DayView>, n: int) -> Seq<char>
    decreases n,
{
    if n <= 0 {
        seq![]
    } else if n == 1 {
        day_text(ds[0])
    } else {
        days_text(ds, n - 1) + "\n"@ + day_text(ds[n - 1])
    }
}

/// A log as text: the head, a blank line, then the days.
pub open spec fn log_text(l: LogView) -> Seq<char> {
    (if l.head.len() > 0 {
        join_with(l.head, "\n"@) + "\n\n"@
    } else {
        Seq::<char>::empty()
    }) + days_text(l.days, l.days.len() as int)
}

/// The position of the first day dated `date`, or the length.
pub open spec fn date_index(ds: Seq<DayView>, date: Seq<char>, i: int) -> int
    decreases ds.len() - i,
{
    if i < 0 || i >= ds.len() {
        ds.len() as int
    } else if ds[i].0 == date {
        i
    } else {
        date_index(ds, date, i + 1)
    }
}

/// The first `n` days with every later day of a date already seen folded
/// into the first one of that date, and the dates folded.
pub open spec fn consolidated(ds: Seq<DayView>, n: int) -> (Seq<DayView>, Seq<Seq<char>>)
    decreases n,
{
    if n <= 0 {
        (seq![], seq![])
    } else {
        let p = consolidated(ds, n - 1);
        let d = ds[n - 1];
        let k = date_index(p.0, d.0, 0);
        if k < p.0.len() {
            (p.0.update(k, (p.0[k].0, p.0[k].1 + d.1)), p.1.push(d.0))
        } else {
            (p.0.push(d), p.1)
        }
    }
}

/// The entry line for an event of kind `kind`.
pub open spec fn entry_line(kind: Seq<char>, text: Seq<char>) -> Seq<char> {
    "* **"@ + kind + "**: "@ + text
}

/// A log with an entry added under `date`: to the first day when it has
/// that date, else in a new day put first.
pub open spec fn with_entry(l: LogView, date: Seq<char>, line: Seq<char>) -> LogView {
    if l.days.len() > 0 && l.days[0].0 == date {
        LogView { head: l.head, days: l.days.update(0, (date, l.days[0].1.push(line))) }
    } else {
        LogView { head: l.head, days: seq![(date, seq![line])] + l.days }
    }
}

proof fn lemma_date_index_bounds(ds: Seq<DayView>, date: Seq<char>, i: int)
    requires
        0 <= i <= ds.len(),
    ensures
        i <= date_index(ds, date, i) <= ds.len(),
        date_index(ds, date, i) < ds.len() ==> ds[date_index(ds, date, i)].0 == date,
    decreases ds.len() - i,
{
    if i < ds.len() && ds[i].0 != date {
        lemma_date_index_bounds(ds, date, i + 1);
    }
}

fn copy_strings(v: &Vec<String>) -> (r: Vec<String>)
    ensures
        crate::concept_id::texts(r@) == crate::concept_id::texts(v@),
{
    let mut out: Vec<String> = Vec::new();
    let mut i: usize = 0;
    while i < v.len()
        invariant
            i <= v.len(),
            crate::concept_id::texts(out@) == crate::concept_id::texts(v@).take(i as int),
        decreases v.len() - i,
    {
        let s = v[i].clone();
        let ghost before = crate::concept_id::texts(out@);
        out.push(s);
        proof {
            assert(crate::concept_id::texts(out@) =~= before.push(v@[i as int]@));
            assert(crate::concept_id::texts(v@).take(i + 1) =~= crate::concept_id::texts(v@).take(i as int).push(v@[i as int]@));
        }
        i += 1;
    }
    proof {
        assert(crate::concept_id::texts(v@).take(i as int) =~= crate::concept_id::texts(v@));
    }
    out
}

impl Log {
    /// An empty log titled `# Update Log`.
    pub fn new() -> (r: Log)
        ensures
            r@.head == seq!["# Update Log"@],
            r@.days.len() == 0,
    {
        let mut head: Vec<String> = Vec::new();
        head.push(string_of(&chars_of("# Update Log")));
        let days: Vec<LogDay> = Vec::new();
        let r = Log { head, days };
        proof {
            assert(r@.head =~= seq!["# Update Log"@]);
            assert(r@.days =~= Seq::<DayView>::empty());
        }
        r
    }

    /// Reads a log (see [`parse_log`]).
    pub fn parse(text: &str) -> (r: Log)
        ensures
            r@ == parse_log(text@),
    {
        let v = chars_of(text);
        let ls = crate::text::split_lines(&v);
        let ghost gl = views(ls@);
        let mut head: Vec<String> = Vec::new();
        let mut days: Vec<LogDay> = Vec::new();
        let mut i: usize = 0;
        proof {
            assert(crate::concept_id::texts(head@) =~= Seq::<Seq<char>>::empty());
            assert(day_views(days@) =~= Seq::<DayView>::empty());
        }
        while i < ls.len()
            invariant
                i <= ls.len(),
                gl == views(ls@),
                gl == lines(text@),
                (Log { head, days })@ == parse_upto(gl, i as int),
            decreases ls.len() - i,
        {
            let line = &ls[i];
            proof {
                assert(gl[i as int] == line@);
            }
            let ghost p = parse_upto(gl, i as int);
            let marker = chars_of("## ");
            let is_day = crate::text::matches_at(line, 0, &marker);
            proof {
                reveal_strlit("## ");
                assert(is_day == has_prefix(line@, "## "@));
                assert(is_day ==> line@.len() >= 3);
            }
            if is_day {
                let mut rest: Vec<char> = Vec::new();
                crate::text::extend_range(&mut rest, line, 3, line.len());
                let date = string_of(&crate::markdown::trimmed(&rest));
                let d = LogDay { date, entries: Vec::new() };
                let ghost before = day_views(days@);
                days.push(d);
                proof {
                    assert(d@.1 =~= Seq::<Seq<char>>::empty());
                    assert(day_views(days@) =~= before.push(d@));
                }
            } else {
                let t = crate::markdown::trimmed(line);
                if t.len() == 0 {
                } else if days.len() == 0 {
                    let ghost before = crate::concept_id::texts(head@);
                    head.push(string_of(line));
                    proof {
                        assert(crate::concept_id::texts(head@) =~= before.push(line@));
                    }
                } else {
                    let n = days.len();
                    let ghost before = day_views(days@);
                    let mut last = days.pop().unwrap();
                    let ghost lb = last@;
                    last.entries.push(string_of(line));
                    proof {
                        assert(last@.1 =~= lb.1.push(line@));
                    }
                    days.push(last);
                    proof {
                        assert(day_views(days@) =~= before.update(n - 1, (lb.0, lb.1.push(line@))));
                    }
                }
            }
            i += 1;
        }
        Log { head, days }
    }

    /// The log as text (see [`log_text`]).
    pub fn to_markdown(&self) -> (r: String)
        ensures
            r@ == log_text(self@),
    {
        let mut out: Vec<char> = Vec::new();
        if self.head.len() > 0 {
            let hv = crate::paths::chars_of_all(&self.head);
            let nl = chars_of("\n");
            extend_all(&mut out, &crate::text::join_lines(&hv, &nl));
            extend_all(&mut out, &chars_of("\n\n"));
            proof {
                reveal_strlit("\n");
            }
        }
        let ghost start = out@;
        let ghost dv = day_views(self.days@);
        let mut k: usize = 0;
        while k < self.days.len()
            invariant
                k <= self.days.len(),
                dv == day_views(self.days@),
                out@ == start + days_text(dv, k as int),
            decreases self.days.len() - k,
        {
            if k > 0 {
                out.push('\n');
            }
            let d = &self.days[k];
            let ghost mid = out@;
            extend_all(&mut out, &chars_of("## "));
            extend_all(&mut out, &chars_of(d.date.as_str()));
            out.push('\n');
            let ghost es = crate::concept_id::texts(d.entries@);
            let ghost dstart = out@;
            let mut j: usize = 0;
            while j < d.entries.len()
                invariant
                    j <= d.entries.len(),
                    es == crate::concept_id::texts(d.entries@),
                    out@ == dstart + entries_text(es, j as int),
                decreases d.entries.len() - j,
            {
                extend_all(&mut out, &chars_of(d.entries[j].as_str()));
                out.push('\n');
                proof {
                    reveal_strlit("\n");
                    assert(out@ =~= dstart + entries_text(es, j + 1));
                }
                j += 1;
            }
            proof {
                reveal_strlit("\n");
                reveal_strlit("## ");
                assert(dv[k as int] == d@);
                assert(out@ =~= mid + day_text(dv[k as int]));
                if k > 0 {
                    assert(out@ =~= start + days_text(dv, k + 1));
                } else {
                    assert(out@ =~= start + days_text(dv, k + 1));
                }
            }
            k += 1;
        }
        proof {
            assert(out@ =~= log_text(self@));
        }
        string_of(&out)
    }

    /// Adds an entry `* **kind**: text` under `date` (see [`with_entry`]).
    pub fn add_entry(&mut self, date: &str, kind: &str, text: &str)
        ensures
            final(self)@ == with_entry(old(self)@, date@, entry_line(kind@, text@)),
    {
        let mut line: Vec<char> = chars_of("* **");
        extend_all(&mut line, &chars_of(kind));
        extend_all(&mut line, &chars_of("**: "));
        extend_all(&mut line, &chars_of(text));
        let ls = string_of(&line);
        proof {
            assert(ls@ =~= entry_line(kind@, text@));
        }
        let ghost before = day_views(self.days@);
        if self.days.len() > 0 && crate::text::str_eq(self.days[0].date.as_str(), date) {
            let mut days: Vec<LogDay> = Vec::new();
            std::mem::swap(&mut days, &mut self.days);
            let ghost lb = days@[0]@;
            let mut first = days.remove(0);
            first.entries.push(ls);
            proof {
                assert(first@.1 =~= lb.1.push(entry_line(kind@, text@)));
            }
            days.insert(0, first);
            self.days = days;
            proof {
                assert(day_views(self.days@) =~= before.update(0, (date@, lb.1.push(entry_line(kind@, text@)))));
            }
        } else {
            let mut entries: Vec<String> = Vec::new();
            entries.push(ls);
            let d = LogDay { date: string_of(&chars_of(date)), entries };
            proof {
                assert(d@.1 =~= seq![entry_line(kind@, text@)]);
            }
            let mut days: Vec<LogDay> = Vec::new();
            std::mem::swap(&mut days, &mut self.days);
            days.insert(0, d);
            self.days = days;
            proof {
                assert(day_views(self.days@) =~= seq![d@] + before);
            }
        }
    }
}

/// Folds days of a date already seen into the first day of that date,
/// returning the dates folded (see [`consolidated`]).
pub fn consolidate_days(days: Vec<LogDay>) -> (r: (Vec<LogDay>, Vec<String>))
    ensures
        (day_views(r.0@), crate::concept_id::texts(r.1@)) == consolidated(day_views(days@), days@.len() as int),
{
    let ghost dv = day_views(days@);
    let n = days.len();
    let mut out: Vec<LogDay> = Vec::new();
    let mut folded: Vec<String> = Vec::new();
    let mut k: usize = 0;
    while k < n
        invariant
            k <= n,
            n == days@.len(),
            dv == day_views(days@),
            (day_views(out@), crate::concept_id::texts(folded@)) == consolidated(dv, k as int),
        decreases n - k,
    {
        let d = &days[k];
        let ghost ov = day_views(out@);
        let mut idx: usize = 0;
        while idx < out.len() && !crate::text::str_eq(out[idx].date.as_str(), d.date.as_str())
            invariant
                idx <= out.len(),
                ov == day_views(out@),
                date_index(ov, d@.0, idx as int) == date_index(ov, d@.0, 0),
            decreases out.len() - idx,
        {
            idx += 1;
        }
        proof {
            assert(dv[k as int] == d@);
            lemma_date_index_bounds(ov, d@.0, 0);
        }
        if idx < out.len() {
            let mut taken: Vec<LogDay> = Vec::new();
            std::mem::swap(&mut taken, &mut out);
            let ghost tv = day_views(taken@);
            let mut day = taken.remove(idx);
            let ghost db = day@;
            let extra = copy_strings(&d.entries);
            let mut j: usize = 0;
            while j < extra.len()
                invariant
                    j <= extra.len(),
                    day@.0 == db.0,
                    day@.1 == db.1 + crate::concept_id::texts(extra@).take(j as int),
                decreases extra.len() - j,
            {
                let c = extra[j].clone();
                let ghost eb = crate::concept_id::texts(day.entries@);
                day.entries.push(c);
                proof {
                    assert(crate::concept_id::texts(day.entries@) =~= eb.push(extra@[j as int]@));
                    assert(crate::concept_id::texts(extra@).take(j + 1) =~= crate::concept_id::texts(extra@).take(j as int).push(extra@[j as int]@));
                    assert(day@.1 =~= db.1 + crate::concept_id::texts(extra@).take(j + 1));
                }
                j += 1;
            }
            proof {
                assert(crate::concept_id::texts(extra@).take(j as int) =~= crate::concept_id::texts(extra@));
            }
            taken.insert(idx, day);
            out = taken;
            let ghost fb = crate::concept_id::texts(folded@);
            folded.push(d.date.clone());
            proof {
                assert(day_views(out@) =~= tv.update(idx as int, (tv[idx as int].0, tv[idx as int].1 + d@.1)));
                assert(crate::concept_id::texts(folded@) =~= fb.push(d@.0));
            }
        } else {
            let c = LogDay { date: d.date.clone(), entries: copy_strings(&d.entries) };
            let ghost ob = day_views(out@);
            out.push(c);
            proof {
                assert(day_views(out@) =~= ob.push(d@));
            }
        }
        k += 1;
    }
    (out, folded)
}

} // verus!
