use vstd::prelude::*;

verus! {

/// The maximum configured for `s`: the last entry of that name wins.
pub open spec fn lookup_max(e: Seq<(String, i64)>, s: Seq<char>) -> Option<i64>
    decreases e.len(),
{
    if e.len() == 0 {
        None
    } else if e.last().0@ == s {
        Some(e.last().1)
    } else {
        lookup_max(e.drop_last(), s)
    }
}

/// Where `s` is configured, an entry of that name holds its maximum.
pub proof fn lemma_lookup_entry(e: Seq<(String, i64)>, s: Seq<char>)
    requires
        lookup_max(e, s).is_some(),
    ensures
        exists|i: int|
            0 <= i < e.len() && (#[trigger] e[i]).0@ == s && lookup_max(e, s) == Some(e[i].1),
    decreases e.len(),
{
    if e.last().0@ != s {
        lemma_lookup_entry(e.drop_last(), s);
        let i = choose|i: int|
            0 <= i < e.drop_last().len() && (#[trigger] e.drop_last()[i]).0@ == s && lookup_max(
                e.drop_last(),
                s,
            ) == Some(e.drop_last()[i].1);
        assert(e[i] == e.drop_last()[i]);
    } else {
        assert(e[e.len() - 1] == e.last());
    }
}

/// A semaphore that has an entry is configured.
pub proof fn lemma_entry_lookup(e: Seq<(String, i64)>, i: int)
    requires
        0 <= i < e.len(),
    ensures
        lookup_max(e, e[i].0@).is_some(),
    decreases e.len(),
{
    if i < e.len() - 1 && e.last().0@ != e[i].0@ {
        assert(e.drop_last()[i] == e[i]);
        lemma_entry_lookup(e.drop_last(), i);
    }
}

/// All known semaphores and their full count.
pub struct Semaphores {
    entries: Vec<(String, i64)>,
}

impl View for Semaphores {
    type V = Seq<(String, i64)>;

    closed spec fn view(&self) -> Seq<(String, i64)> {
        self.entries@
    }
}

impl Semaphores {
    /// The full count of semaphore `s`, or `None` if `s` is not configured.
    pub open spec fn max_of(&self, s: Seq<char>) -> Option<i64> {
        lookup_max(self@, s)
    }

    /// Every full count is non-negative.
    pub open spec fn wf(&self) -> bool {
        forall|i: int| 0 <= i < self@.len() ==> (#[trigger] self@[i]).1 >= 0
    }

    pub proof fn lemma_max_nonneg(&self, s: Seq<char>)
        requires
            self.wf(),
            self.max_of(s).is_some(),
        ensures
            self.max_of(s).unwrap() >= 0,
    {
        lemma_lookup_entry(self@, s);
    }

    /// No semaphore is configured.
    pub fn new() -> (r: Semaphores)
        ensures
            r.wf(),
            forall|s: Seq<char>| r.max_of(s) == None::<i64>,
    {
        Semaphores { entries: Vec::new() }
    }

    /// Configures semaphore `name` with full count `max`, replacing an earlier full count.
    pub fn insert(&mut self, name: &str, max: i64)
        requires
            old(self).wf(),
            max >= 0,
        ensures
            final(self).wf(),
            final(self).max_of(name@) == Some(max),
            forall|s: Seq<char>| s != name@ ==> final(self).max_of(s) == old(self).max_of(s),
    {
        self.entries.push((name.to_owned(), max));
        proof {
            assert(self.entries@.drop_last() =~= old(self).entries@);
        }
    }

    /// The full count of semaphore `name`, if it is configured.
    pub fn get(&self, name: &str) -> (r: Option<i64>)
        ensures
            r == self.max_of(name@),
    {
        let key = name.to_owned();
        let mut i: usize = self.entries.len();
        proof {
            assert(self.entries@.subrange(0, i as int) =~= self.entries@);
        }
        while i > 0
            invariant
                i <= self.entries@.len(),
                key@ == name@,
                lookup_max(self.entries@, name@) == lookup_max(
                    self.entries@.subrange(0, i as int),
                    name@,
                ),
            decreases i,
        {
            let ghost pre = self.entries@.subrange(0, i as int);
            proof {
                assert(pre.drop_last() =~= self.entries@.subrange(0, i - 1));
                assert(pre.last() == self.entries@[i - 1]);
            }
            if self.entries[i - 1].0 == key {
                return Some(self.entries[i - 1].1);
            }
            i -= 1;
        }
        None
    }

    /// Names of the configured semaphores, each once for every time it was configured.
    pub fn names(&self) -> (r: Vec<String>)
        ensures
            r@.len() == self@.len(),
            forall|i: int| 0 <= i < r@.len() ==> (#[trigger] r@[i])@ == self@[i].0@,
    {
        let mut r: Vec<String> = Vec::new();
        let mut i: usize = 0;
        while i < self.entries.len()
            invariant
                i <= self.entries@.len(),
                r@.len() == i,
                forall|k: int| 0 <= k < i ==> (#[trigger] r@[k])@ == self.entries@[k].0@,
            decreases self.entries.len() - i,
        {
            r.push(self.entries[i].0.clone());
            i += 1;
        }
        r
    }
}

} // verus!

verus! {

/// How verbose the log is.
#[derive(Clone, Copy, Debug, PartialEq, Eq, Structural)]
pub enum LogLevel {
    Off,
    Error,
    Warn,
    Info,
    Debug,
    Trace,
}

/// Where a GELF logger sends its records.
#[derive(Clone, Debug)]
pub struct GelfConfig {
    /// Name of the instance. Appears as source in Graylog.
    pub name: String,
    /// Host of e.g. a Graylog instance.
    pub host: String,
    /// Records below this level are dropped.
    pub level: LogLevel,
    /// E.g. 12201.
    pub port: u16,
}

/// Controls the logging behaviour of the service.
#[derive(Clone, Debug)]
pub struct LoggingConfig {
    /// Configures a GELF logger; without one the log goes to stderr.
    pub gelf: Option<GelfConfig>,
}

} // verus!
