//! Descriptive statistics for the benchmark harness: count, sum, mean,
//! minimum and maximum over streams of integer samples, grouped into named
//! report fields.

use vstd::prelude::*;
use vstd::string::*;

verus! {

/// A running statistic over a stream of samples.
pub trait Statistic {
    fn name(&self) -> String;

    fn update(&mut self, value: u64);

    fn value(&self) -> u64;
}

/// The sample count and running sum, reporting their quotient. Saturates at
/// the integer limit rather than overflowing.
pub struct Mean {
    count: u64,
    sum: u64,
}

impl Mean {
    pub closed spec fn spec_count(&self) -> u64 {
        self.count
    }

    pub closed spec fn spec_sum(&self) -> u64 {
        self.sum
    }

    pub fn new() -> (r: Self)
        ensures
            r.spec_count() == 0,
            r.spec_sum() == 0,
    {
        Mean { count: 0, sum: 0 }
    }
}

impl Statistic for Mean {
    fn name(&self) -> String {
        String::from_str("mean")
    }

    fn update(&mut self, value: u64) {
        if self.count < u64::MAX {
            self.count = self.count + 1;
        }
        if self.sum <= u64::MAX - value {
            self.sum = self.sum + value;
        } else {
            self.sum = u64::MAX;
        }
    }

    fn value(&self) -> u64 {
        if self.count == 0 {
            0
        } else {
            self.sum / self.count
        }
    }
}

/// The running sum of the samples, saturating at the integer limit.
pub struct Sum {
    sum: u64,
}

impl Sum {
    pub closed spec fn spec_sum(&self) -> u64 {
        self.sum
    }

    pub fn new() -> (r: Self)
        ensures
            r.spec_sum() == 0,
    {
        Sum { sum: 0 }
    }
}

impl Statistic for Sum {
    fn name(&self) -> String {
        String::from_str("sum")
    }

    fn update(&mut self, value: u64) {
        if self.sum <= u64::MAX - value {
            self.sum = self.sum + value;
        } else {
            self.sum = u64::MAX;
        }
    }

    fn value(&self) -> u64 {
        self.sum
    }
}

/// How many samples were seen, saturating at the integer limit.
pub struct Count {
    count: u64,
}

impl Count {
    pub closed spec fn spec_count(&self) -> u64 {
        self.count
    }

    pub fn new() -> (r: Self)
        ensures
            r.spec_count() == 0,
    {
        Count { count: 0 }
    }
}

impl Statistic for Count {
    fn name(&self) -> String {
        String::from_str("count")
    }

    fn update(&mut self, _value: u64) {
        if self.count < u64::MAX {
            self.count = self.count + 1;
        }
    }

    fn value(&self) -> u64 {
        self.count
    }
}

/// The largest sample seen, or zero before any sample.
pub struct Maximum {
    max: Option<u64>,
}

impl Maximum {
    pub closed spec fn spec_max(&self) -> Option<u64> {
        self.max
    }

    pub fn new() -> (r: Self)
        ensures
            r.spec_max() is None,
    {
        Maximum { max: None }
    }
}

impl Statistic for Maximum {
    fn name(&self) -> String {
        String::from_str("maximum")
    }

    fn update(&mut self, value: u64) {
        self.max = match self.max {
            Some(max) => if value > max {
                Some(value)
            } else {
                Some(max)
            },
            None => Some(value),
        };
    }

    fn value(&self) -> u64 {
        match self.max {
            Some(max) => max,
            None => 0,
        }
    }
}

/// The smallest sample seen, or zero before any sample.
pub struct Minimum {
    min: Option<u64>,
}

impl Minimum {
    pub closed spec fn spec_min(&self) -> Option<u64> {
        self.min
    }

    pub fn new() -> (r: Self)
        ensures
            r.spec_min() is None,
    {
        Minimum { min: None }
    }
}

impl Statistic for Minimum {
    fn name(&self) -> String {
        String::from_str("minimum")
    }

    fn update(&mut self, value: u64) {
        self.min = match self.min {
            Some(min) => if value < min {
                Some(value)
            } else {
                Some(min)
            },
            None => Some(value),
        };
    }

    fn value(&self) -> u64 {
        match self.min {
            Some(min) => min,
            None => 0,
        }
    }
}

/// Any one of the shipped statistics, for grouping into reports.
pub enum AnyStatistic {
    Mean(Mean),
    Sum(Sum),
    Count(Count),
    Maximum(Maximum),
    Minimum(Minimum),
}

impl Statistic for AnyStatistic {
    fn name(&self) -> String {
        match self {
            AnyStatistic::Mean(s) => s.name(),
            AnyStatistic::Sum(s) => s.name(),
            AnyStatistic::Count(s) => s.name(),
            AnyStatistic::Maximum(s) => s.name(),
            AnyStatistic::Minimum(s) => s.name(),
        }
    }

    fn update(&mut self, value: u64) {
        match self {
            AnyStatistic::Mean(s) => s.update(value),
            AnyStatistic::Sum(s) => s.update(value),
            AnyStatistic::Count(s) => s.update(value),
            AnyStatistic::Maximum(s) => s.update(value),
            AnyStatistic::Minimum(s) => s.update(value),
        }
    }

    fn value(&self) -> u64 {
        match self {
            AnyStatistic::Mean(s) => s.value(),
            AnyStatistic::Sum(s) => s.value(),
            AnyStatistic::Count(s) => s.value(),
            AnyStatistic::Maximum(s) => s.value(),
            AnyStatistic::Minimum(s) => s.value(),
        }
    }
}

/// A statistic together with its display unit and precision.
pub struct Formatted {
    pub unit: String,
    pub precision: usize,
    statistic: AnyStatistic,
}

impl Formatted {
    pub fn new(statistic: AnyStatistic, unit: &str, precision: usize) -> Formatted {
        Formatted { unit: unit.to_owned(), precision, statistic }
    }
}

impl Statistic for Formatted {
    fn name(&self) -> String {
        self.statistic.name()
    }

    fn update(&mut self, value: u64) {
        self.statistic.update(value);
    }

    fn value(&self) -> u64 {
        self.statistic.value()
    }
}

/// Named report fields, each carrying the statistics registered for it, in
/// registration order.
pub struct Report {
    fields: Vec<(String, Vec<Formatted>)>,
}

impl Report {
    /// Feed one sample to every statistic registered under `field`; a sample
    /// for an unregistered field is dropped.
    pub fn update(&mut self, field: &str, value: u64) {
        let key = field.to_owned();
        let n = self.fields.len();
        let mut i: usize = 0;
        while i < n
            invariant
                n == self.fields@.len(),
                i <= n,
            decreases n - i,
        {
            if self.fields[i].0 == key {
                let mut pair = self.fields.remove(i);
                let mut j: usize = 0;
                let m = pair.1.len();
                while j < m
                    invariant
                        m == pair.1@.len(),
                        j <= m,
                    decreases m - j,
                {
                    let mut stat = pair.1.remove(j);
                    stat.update(value);
                    pair.1.insert(j, stat);
                    j = j + 1;
                }
                self.fields.insert(i, pair);
                return ;
            }
            i = i + 1;
        }
    }

    /// The current values under `field`, in registration order.
    pub fn values(&self, field: &str) -> Vec<u64> {
        let key = field.to_owned();
        let mut out: Vec<u64> = Vec::new();
        let n = self.fields.len();
        let mut i: usize = 0;
        while i < n
            invariant
                n == self.fields@.len(),
                i <= n,
            decreases n - i,
        {
            if self.fields[i].0 == key {
                let m = self.fields[i].1.len();
                let mut j: usize = 0;
                while j < m
                    invariant
                        i < n,
                        n == self.fields@.len(),
                        m == self.fields@[i as int].1@.len(),
                        j <= m,
                    decreases m - j,
                {
                    out.push(self.fields[i].1[j].value());
                    j = j + 1;
                }
                return out;
            }
            i = i + 1;
        }
        out
    }

    /// The field names, in registration order.
    pub fn field_names(&self) -> Vec<String> {
        let mut out: Vec<String> = Vec::new();
        let n = self.fields.len();
        let mut i: usize = 0;
        while i < n
            invariant
                n == self.fields@.len(),
                i <= n,
            decreases n - i,
        {
            out.push(self.fields[i].0.clone());
            i = i + 1;
        }
        out
    }
}

/// Builds a report by registering statistics under named fields.
pub struct ReportBuilder {
    fields: Vec<(String, Vec<Formatted>)>,
}

impl ReportBuilder {
    pub fn new() -> (r: Self)
        ensures
            r.spec_len() == 0,
    {
        ReportBuilder { fields: Vec::new() }
    }

    pub closed spec fn spec_len(&self) -> nat {
        self.fields@.len()
    }

    /// Register one more statistic under `field`, creating the field at the
    /// end of the order if it is new.
    pub fn with(self, field: &str, stat: Formatted) -> ReportBuilder {
        let ReportBuilder { fields: mut fs } = self;
        let key = field.to_owned();
        let n = fs.len();
        let mut i: usize = 0;
        while i < n
            invariant
                n == fs@.len(),
                i <= n,
            decreases n - i,
        {
            if fs[i].0 == key {
                let mut pair = fs.remove(i);
                pair.1.push(stat);
                fs.insert(i, pair);
                return ReportBuilder { fields: fs };
            }
            i = i + 1;
        }
        let mut inner: Vec<Formatted> = Vec::new();
        inner.push(stat);
        fs.push((key, inner));
        ReportBuilder { fields: fs }
    }

    pub fn build(self) -> Report {
        Report { fields: self.fields }
    }
}

/// The additive identity of a sample type.
pub trait Zero: Sized {
    fn zero() -> Self;
}

/// The multiplicative identity of a sample type.
pub trait One: Sized {
    fn one() -> Self;
}

impl Zero for u64 {
    fn zero() -> (r: Self)
        ensures
            r == 0u64,
    {
        0
    }
}

impl One for u64 {
    fn one() -> (r: Self)
        ensures
            r == 1u64,
    {
        1
    }
}

impl Zero for u128 {
    fn zero() -> (r: Self)
        ensures
            r == 0u128,
    {
        0
    }
}

impl One for u128 {
    fn one() -> (r: Self)
        ensures
            r == 1u128,
    {
        1
    }
}

impl Zero for i64 {
    fn zero() -> (r: Self)
        ensures
            r == 0i64,
    {
        0
    }
}

impl One for i64 {
    fn one() -> (r: Self)
        ensures
            r == 1i64,
    {
        1
    }
}

impl Zero for i128 {
    fn zero() -> (r: Self)
        ensures
            r == 0i128,
    {
        0
    }
}

impl One for i128 {
    fn one() -> (r: Self)
        ensures
            r == 1i128,
    {
        1
    }
}

} // verus!
