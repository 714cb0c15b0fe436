//! Statistics of a run: generations, alive cells, and the time between.

use crate::text::{digits, push_digits, string_of};
use std::time::{Duration, Instant};
use vstd::prelude::*;

verus! {

/// `std::time::Instant`: a moment of a clock that does not go back.
#[verifier::external_type_specification]
#[verifier::external_body]
pub struct ExInstant(Instant);

/// `Instant::now`: the present moment. Nothing is claimed of it.
#[verifier::external_body]
fn now() -> Instant {
    Instant::now()
}

/// `Instant::elapsed`: the time that has passed since `since`. Nothing is
/// claimed of it.
#[verifier::external_body]
fn elapsed(since: &Instant) -> Duration {
    since.elapsed()
}

/// `Duration::as_millis`: the whole milliseconds of `time`. Nothing is
/// claimed of them.
#[verifier::external_body]
fn millis(time: &Duration) -> u128 {
    time.as_millis()
}

/// `Duration::as_micros`: the whole microseconds of `time`. Nothing is
/// claimed of them.
#[verifier::external_body]
fn micros(time: &Duration) -> u128 {
    time.as_micros()
}

/// The milliseconds between two reports.
pub const REPORT_MILLIS: u128 = 500;

/// Says whether a report is due after `elapsed_millis` milliseconds.
pub fn due(elapsed_millis: u128) -> (due: bool)
    ensures
        due == (elapsed_millis >= REPORT_MILLIS),
{
    elapsed_millis >= REPORT_MILLIS
}

/// The numbers of a report.
pub struct Report {
    /// The generations since the last report.
    pub gens_in_report: usize,
    /// The time since the last report.
    pub elapsed: Duration,
    /// All generations so far.
    pub gens: usize,
    /// The alive cells of the last generation.
    pub alive: usize,
}

/// What a recorder has counted.
pub struct Counts {
    pub gens: nat,
    pub alive: nat,
    pub gens_in_report: nat,
}

pub trait Recorder {
    /// The generations recorded so far.
    spec fn gens(&self) -> nat;

    /// The generations recorded so far.
    fn recorded(&self) -> (gens: usize)
        ensures
            gens == self.gens(),
    ;

    /// Records a generation with `alive` alive cells.
    fn record(&mut self, alive: usize)
        requires
            old(self).gens() < usize::MAX,
        ensures
            final(self).gens() == old(self).gens() + 1,
    ;

    /// Says whether a report is due.
    fn has_report(&self) -> bool;

    /// Takes the report and starts the next one.
    fn report(&mut self) -> (report: Report)
        ensures
            final(self).gens() == old(self).gens(),
            report.gens == old(self).gens(),
    ;
}

/// Counts generations, and reports them from time to time.
pub struct SimpleRecord {
    gens: usize,
    alive: usize,
    gens_in_report: usize,
    last_report: Instant,
}

impl View for SimpleRecord {
    type V = Counts;

    closed spec fn view(&self) -> Counts {
        Counts {
            gens: self.gens as nat,
            alive: self.alive as nat,
            gens_in_report: self.gens_in_report as nat,
        }
    }
}

impl SimpleRecord {
    #[verifier::type_invariant]
    spec fn well_formed(self) -> bool {
        self.gens_in_report <= self.gens
    }

    pub fn new(alive: usize) -> (record: Self)
        ensures
            record@ == (Counts { gens: 0, alive: alive as nat, gens_in_report: 0 }),
    {
        Self { gens: 0, alive, gens_in_report: 0, last_report: now() }
    }

    /// Takes the report after the time `elapsed`, and starts the next one.
    pub fn report_after(&mut self, elapsed: Duration) -> (report: Report)
        ensures
            report.gens_in_report == old(self)@.gens_in_report,
            report.elapsed == elapsed,
            report.gens == old(self)@.gens,
            report.alive == old(self)@.alive,
            final(self)@ == (Counts { gens_in_report: 0, ..old(self)@ }),
    {
        proof {
            use_type_invariant(&*self);
        }
        let report = Report {
            gens_in_report: self.gens_in_report,
            elapsed,
            gens: self.gens,
            alive: self.alive,
        };
        // reset stats for next report
        self.last_report = now();
        self.gens_in_report = 0;
        report
    }
}

impl Recorder for SimpleRecord {
    open spec fn gens(&self) -> nat {
        self@.gens
    }

    fn recorded(&self) -> (gens: usize) {
        self.gens
    }

    fn record(&mut self, alive: usize)
        ensures
            final(self)@ == (Counts {
                gens: old(self)@.gens + 1,
                alive: alive as nat,
                gens_in_report: old(self)@.gens_in_report + 1,
            }),
    {
        proof {
            use_type_invariant(&*self);
        }
        self.gens += 1;
        self.gens_in_report += 1;
        self.alive = alive;
    }

    fn has_report(&self) -> bool {
        due(millis(&elapsed(&self.last_report)))
    }

    fn report(&mut self) -> (report: Report)
        ensures
            report.gens_in_report == old(self)@.gens_in_report,
            report.gens == old(self)@.gens,
            report.alive == old(self)@.alive,
            final(self)@ == (Counts { gens_in_report: 0, ..old(self)@ }),
    {
        let time = elapsed(&self.last_report);
        self.report_after(time)
    }
}

/// The table of the generations: a header, and a line for each generation
/// with its number, the microseconds it took and its alive cells.
pub open spec fn csv_text(data: Seq<(u128, usize)>) -> Seq<char> {
    "gen,delta_t,alive\n"@ + csv_lines(data)
}

/// The lines of the table.
pub open spec fn csv_lines(data: Seq<(u128, usize)>) -> Seq<char>
    decreases data.len(),
{
    if data.len() == 0 {
        Seq::empty()
    } else {
        csv_lines(data.drop_last()) + digits((data.len() - 1) as nat).push(',') + digits(
            data.last().0 as nat,
        ).push(',') + digits(data.last().1 as nat).push('\n')
    }
}

/// Records the time and the alive cells of every generation.
pub struct CsvRecord {
    inner: SimpleRecord,
    data: Vec<(u128, usize)>,
    last: Instant,
}

impl CsvRecord {
    /// The counts.
    pub closed spec fn counts(&self) -> Counts {
        self.inner@
    }

    /// For each generation the microseconds it took and its alive cells.
    pub closed spec fn data(&self) -> Seq<(u128, usize)> {
        self.data@
    }

    pub fn new(alive: usize) -> (record: Self)
        ensures
            record.counts() == (Counts { gens: 0, alive: alive as nat, gens_in_report: 0 }),
            record.data() == Seq::<(u128, usize)>::empty(),
    {
        Self { inner: SimpleRecord::new(alive), data: Vec::new(), last: now() }
    }

    /// Records a generation that took `delta` microseconds and has `alive`
    /// alive cells.
    pub fn record_after(&mut self, delta: u128, alive: usize)
        requires
            old(self).counts().gens < usize::MAX,
        ensures
            final(self).data() == old(self).data().push((delta, alive)),
            final(self).counts() == (Counts {
                gens: old(self).counts().gens + 1,
                alive: alive as nat,
                gens_in_report: old(self).counts().gens_in_report + 1,
            }),
    {
        self.last = now();
        self.data.push((delta, alive));
        self.inner.record(alive);
    }

    /// The table of the generations as text.
    pub fn csv(&self) -> (text: String)
        ensures
            text@ == csv_text(self.data()),
    {
        let mut text = crate::text::chars_of("gen,delta_t,alive\n");
        let ghost head = text@;
        let mut i: usize = 0;
        while i < self.data.len()
            invariant
                0 <= i <= self.data@.len(),
                text@ == head + csv_lines(self.data@.take(i as int)),
            decreases self.data@.len() - i,
        {
            let (delta, alive) = self.data[i];
            let ghost before = text@;
            assert(self.data@.take(i + 1).drop_last() =~= self.data@.take(i as int));
            push_digits(&mut text, i as u128);
            text.push(',');
            push_digits(&mut text, delta);
            text.push(',');
            push_digits(&mut text, alive as u128);
            text.push('\n');
            assert(text@ =~= before + digits(i as nat).push(',') + digits(delta as nat).push(',')
                + digits(alive as nat).push('\n'));
            assert(text@ =~= head + csv_lines(self.data@.take(i + 1)));
            i += 1;
        }
        assert(self.data@.take(self.data@.len() as int) =~= self.data@);
        string_of(text.as_slice())
    }
}

impl Recorder for CsvRecord {
    open spec fn gens(&self) -> nat {
        self.counts().gens
    }

    fn recorded(&self) -> (gens: usize) {
        self.inner.recorded()
    }

    fn record(&mut self, alive: usize)
        ensures
            final(self).data().len() == old(self).data().len() + 1,
            final(self).data().drop_last() == old(self).data(),
            final(self).data().last().1 == alive,
            final(self).counts() == (Counts {
                gens: old(self).counts().gens + 1,
                alive: alive as nat,
                gens_in_report: old(self).counts().gens_in_report + 1,
            }),
    {
        let delta = micros(&elapsed(&self.last));
        self.record_after(delta, alive);
        assert(self.data@.drop_last() =~= old(self).data@);
    }

    fn has_report(&self) -> bool {
        self.inner.has_report()
    }

    fn report(&mut self) -> (report: Report)
        ensures
            report.gens_in_report == old(self).counts().gens_in_report,
            report.alive == old(self).counts().alive,
            final(self).counts() == (Counts { gens_in_report: 0, ..old(self).counts() }),
            final(self).data() == old(self).data(),
    {
        self.inner.report()
    }
}

/// A recorder of either kind.
pub enum SwitchRecorder {
    Csv(CsvRecord),
    Simple(SimpleRecord),
}

impl SwitchRecorder {
    /// The counts.
    pub open spec fn counts(&self) -> Counts {
        match self {
            Self::Csv(r) => r.counts(),
            Self::Simple(r) => r@,
        }
    }

    pub fn new(alive: usize, csv: bool) -> (record: Self)
        ensures
            record is Csv == csv,
            record.counts() == (Counts { gens: 0, alive: alive as nat, gens_in_report: 0 }),
            record matches Self::Csv(r) ==> r.data() == Seq::<(u128, usize)>::empty(),
    {
        if csv {
            Self::Csv(CsvRecord::new(alive))
        } else {
            Self::Simple(SimpleRecord::new(alive))
        }
    }

    /// The table of the generations as text; only a recorder of the kind
    /// `Csv` has one.
    pub fn csv(&self) -> (text: String)
        requires
            self is Csv,
        ensures
            text@ == csv_text(self->Csv_0.data()),
    {
        match self {
            Self::Csv(r) => r.csv(),
            Self::Simple(_) => String::new(),
        }
    }
}

impl Recorder for SwitchRecorder {
    open spec fn gens(&self) -> nat {
        match self {
            Self::Csv(r) => r.gens(),
            Self::Simple(r) => r.gens(),
        }
    }

    fn recorded(&self) -> (gens: usize) {
        match self {
            Self::Csv(r) => r.recorded(),
            Self::Simple(r) => r.recorded(),
        }
    }

    fn record(&mut self, alive: usize)
        ensures
            (*final(self) is Csv) == (*old(self) is Csv),
            final(self).counts() == (Counts {
                gens: old(self).counts().gens + 1,
                alive: alive as nat,
                gens_in_report: old(self).counts().gens_in_report + 1,
            }),
    {
        match self {
            Self::Csv(r) => r.record(alive),
            Self::Simple(r) => r.record(alive),
        }
    }

    fn has_report(&self) -> bool {
        match self {
            Self::Csv(r) => r.has_report(),
            Self::Simple(r) => r.has_report(),
        }
    }

    fn report(&mut self) -> (report: Report)
        ensures
            (*final(self) is Csv) == (*old(self) is Csv),
            report.gens_in_report == old(self).counts().gens_in_report,
            report.alive == old(self).counts().alive,
            final(self).counts() == (Counts { gens_in_report: 0, ..old(self).counts() }),
    {
        match self {
            Self::Csv(r) => r.report(),
            Self::Simple(r) => r.report(),
        }
    }
}

} // verus!
