//! Benchmark tasks and results: discovery of tasks from directory paths, the
//! exported measurement record, and the energy-counter arithmetic of the
//! RAPL sampler.
use vstd::prelude::*;
use crate::text::{chars_of, parse_u64, parse_u64_spec, same_chars, string_of, trim, trimmed};

verus! {

/// One benchmark: a task implemented in one language, found in the
/// directory `<root>/<language>/<name>`.
#[derive(Debug, Clone, PartialEq, Eq, Hash)]
pub struct Task {
    pub path: String,
    pub language: String,
    pub name: String,
}

impl Task {
    /// Directory, language and name of the task, as character sequences.
    pub open spec fn parts(self) -> (Seq<char>, Seq<char>, Seq<char>) {
        (self.path@, self.language@, self.name@)
    }

    /// The language and name of the task: the key of its progress entry.
    pub open spec fn key(self) -> (Seq<char>, Seq<char>) {
        (self.language@, self.name@)
    }

    pub fn new(path: String, language: String, name: String) -> (t: Task)
        ensures
            t.path == path,
            t.language == language,
            t.name == name,
    {
        Task { path, language, name }
    }

    /// A copy of the task.
    pub fn duplicate(&self) -> (r: Task)
        ensures
            r == *self,
    {
        Task { path: self.path.clone(), language: self.language.clone(), name: self.name.clone() }
    }
}

/// The result of one benchmark run. `energy_bits` holds the bit pattern of
/// the measured energy (an `f64`, in microjoules); `duration` is in
/// milliseconds.
#[derive(Debug, Clone, Default)]
pub struct Export {
    pub language: String,
    pub task: String,
    pub duration: i64,
    pub energy_bits: u64,
}

impl Export {
    /// The language and task of the result, by which results are ordered.
    pub open spec fn key(self) -> (Seq<char>, Seq<char>) {
        (self.language@, self.task@)
    }

    /// A copy of the result.
    pub fn duplicate(&self) -> (r: Export)
        ensures
            r == *self,
    {
        Export {
            language: self.language.clone(),
            task: self.task.clone(),
            duration: self.duration,
            energy_bits: self.energy_bits,
        }
    }
}

/// Position of the last `/` of `s` before position `end`, or -1 if there is none.
pub open spec fn slash_before(s: Seq<char>, end: int) -> int
    decreases end,
{
    if end <= 0 {
        -1
    } else if s[end - 1] == '/' {
        end - 1
    } else {
        slash_before(s, end - 1)
    }
}

/// The text after the last `/` of `s`: the first part of `s.split('/')` reversed.
pub open spec fn last_component(s: Seq<char>) -> Seq<char> {
    s.subrange(slash_before(s, s.len() as int) + 1, s.len() as int)
}

/// The text between the last two `/` of `s` (from the start if there is
/// only one): the second part of `s.split('/')` reversed.
pub open spec fn parent_component(s: Seq<char>) -> Seq<char> {
    let l = slash_before(s, s.len() as int);
    s.subrange(slash_before(s, l) + 1, l)
}

/// `s` holds at least one `/`, so that it has a parent component.
pub open spec fn has_slash(s: Seq<char>) -> bool {
    slash_before(s, s.len() as int) >= 0
}

/// Directory, language and name of the tasks found in `dirs`, in order:
/// every directory but those named `node_modules`.
pub open spec fn discovered(dirs: Seq<Seq<char>>) -> Seq<(Seq<char>, Seq<char>, Seq<char>)>
    decreases dirs.len(),
{
    if dirs.len() == 0 {
        seq![]
    } else {
        let rest = discovered(dirs.drop_last());
        let d = dirs.last();
        if last_component(d) == "node_modules"@ {
            rest
        } else {
            rest.push((d, parent_component(d), last_component(d)))
        }
    }
}

proof fn lemma_slash_before_range(s: Seq<char>, end: int)
    requires
        end <= s.len(),
    ensures
        -1 <= slash_before(s, end) < end || (end <= 0 && slash_before(s, end) == -1),
        slash_before(s, end) >= 0 ==> s[slash_before(s, end)] == '/',
    decreases end,
{
    if end > 0 && s[end - 1] != '/' {
        lemma_slash_before_range(s, end - 1);
    }
}

/// Position of the last `/` before `end`, if any.
fn find_slash_before(s: &Vec<char>, end: usize) -> (r: Option<usize>)
    requires
        end <= s.len(),
    ensures
        r is None ==> slash_before(s@, end as int) == -1,
        r is Some ==> r->0 == slash_before(s@, end as int) && r->0 < end,
{
    let mut k: usize = end;
    while k > 0
        invariant
            k <= end <= s.len(),
            slash_before(s@, end as int) == slash_before(s@, k as int),
        decreases k,
    {
        if s[k - 1] == '/' {
            return Some(k - 1);
        }
        k = k - 1;
    }
    None
}

fn copy_range(s: &Vec<char>, from: usize, to: usize) -> (r: String)
    requires
        from <= to <= s.len(),
    ensures
        r@ == s@.subrange(from as int, to as int),
{
    let mut v: Vec<char> = Vec::new();
    let mut k: usize = from;
    while k < to
        invariant
            from <= k <= to <= s.len(),
            v@ == s@.subrange(from as int, k as int),
        decreases to - k,
    {
        v.push(s[k]);
        k = k + 1;
    }
    string_of(&v)
}

/// The tasks found in the task directories `dirs` (each of the form
/// `<root>/<language>/<name>`): one per directory, in order, with the last
/// path component as name and the one before it as language; directories
/// named `node_modules` are skipped.
pub fn list_all(dirs: &Vec<String>) -> (r: Vec<Task>)
    requires
        forall|i: int| 0 <= i < dirs.len() ==> has_slash(#[trigger] dirs@[i]@),
    ensures
        r@.map_values(|t: Task| t.parts()) == discovered(dirs@.map_values(|d: String| d@)),
{
    let skip = chars_of("node_modules");
    let mut r: Vec<Task> = Vec::new();
    let mut i: usize = 0;
    while i < dirs.len()
        invariant
            i <= dirs.len(),
            skip@ == "node_modules"@,
            forall|j: int| 0 <= j < dirs.len() ==> has_slash(#[trigger] dirs@[j]@),
            r@.map_values(|t: Task| t.parts()) == discovered(
                dirs@.subrange(0, i as int).map_values(|d: String| d@),
            ),
        decreases dirs.len() - i,
    {
        let ghost prev = r@;
        let d = &dirs[i];
        let s = chars_of(d.as_str());
        let n = s.len();
        let ghost ds = dirs@.subrange(0, i + 1).map_values(|d: String| d@);
        assert(ds.drop_last() =~= dirs@.subrange(0, i as int).map_values(|d: String| d@));
        assert(ds.last() == s@);
        assert(has_slash(dirs@[i as int]@));
        proof {
            lemma_slash_before_range(s@, n as int);
        }
        let last = find_slash_before(&s, n);
        let l = match last {
            Some(l) => l,
            None => {
                assert(false);
                0
            },
        };
        proof {
            lemma_slash_before_range(s@, l as int);
        }
        let name = copy_range(&s, l + 1, n);
        let name_chars = chars_of(name.as_str());
        if same_chars(&name_chars, &skip) {
            i = i + 1;
        } else {
            let first = match find_slash_before(&s, l) {
                Some(f) => f + 1,
                None => 0,
            };
            let language = copy_range(&s, first, l);
            let t = Task::new(d.clone(), language, name);
            r.push(t);
            assert(r@.map_values(|t: Task| t.parts()) =~= prev.map_values(|t: Task| t.parts()).push(
                t.parts(),
            ));
            i = i + 1;
        }
    }
    assert(dirs@.subrange(0, i as int) =~= dirs@);
    r
}

/// The RAPL energy sampler's arithmetic: the counter, in microjoules, wraps
/// around at `max` (the content of `max_energy_range_uj`).
pub struct Sampler {
    pub max: u64,
}

/// The energy used between two readings of a counter that wraps at `max`.
pub open spec fn energy_between(max: int, prev: int, curr: int) -> int {
    if curr < prev {
        curr + max - prev
    } else {
        curr - prev
    }
}

impl Sampler {
    /// A sampler for the counter range given as the text of
    /// `max_energy_range_uj`: a decimal number, surrounding white space
    /// ignored; `None` when the text is not such a number.
    pub fn from_max_energy_range(text: &str) -> (r: Option<Sampler>)
        ensures
            r is Some <==> parse_u64_spec(trimmed(text@)) is Some,
            r is Some ==> r->0.max == parse_u64_spec(trimmed(text@))->0,
    {
        let chars = chars_of(text);
        let t = trim(&chars);
        match parse_u64(&t) {
            Some(max) => Some(Sampler { max }),
            None => None,
        }
    }

    /// The energy used since the reading `prev`, given the current reading
    /// `curr`; a smaller current reading means that the counter wrapped.
    pub fn sample_end(&self, prev: u64, curr: u64) -> (r: u64)
        requires
            curr < prev ==> prev <= curr + self.max <= u64::MAX,
        ensures
            r == energy_between(self.max as int, prev as int, curr as int),
    {
        if curr < prev {
            return curr + self.max - prev;
        } else {
            return curr - prev;
        }
    }
}

/// For readings within the counter's range, the energy reported between two
/// readings is the counter's advance modulo its range: it is at most the
/// range, and adding it to the first reading gives the second one, modulo
/// the range (exactly, when the counter did not wrap).
pub proof fn lemma_energy_between_is_counter_advance(max: int, prev: int, curr: int)
    requires
        0 < max,
        0 <= prev <= max,
        0 <= curr <= max,
    ensures
        0 <= energy_between(max, prev, curr) <= max,
        (prev + energy_between(max, prev, curr)) % max == curr % max,
        curr >= prev ==> prev + energy_between(max, prev, curr) == curr,
{
    if curr < prev {
        assert(prev + energy_between(max, prev, curr) == curr + max);
        vstd::arithmetic::div_mod::lemma_mod_add_multiples_vanish(curr, max);
    }
}

/// Sum of `end - start` over the readings.
pub open spec fn total_delta(readings: Seq<(u64, u64)>) -> int
    decreases readings.len(),
{
    if readings.len() == 0 {
        0
    } else {
        total_delta(readings.drop_last()) + (readings.last().1 - readings.last().0)
    }
}

/// The mean energy of a series of runs, each given by the counter readings
/// before and after it: the sum of the differences divided by the number of
/// runs (rounded down).
pub fn mean_energy_delta(readings: &Vec<(u64, u64)>) -> (r: u64)
    requires
        readings.len() > 0,
        forall|i: int| 0 <= i < readings.len() ==> (#[trigger] readings@[i]).0 <= readings@[i].1,
        forall|k: int|
            0 <= k <= readings.len() ==> #[trigger] total_delta(readings@.subrange(0, k))
                <= u64::MAX,
    ensures
        r == total_delta(readings@) / (readings.len() as int),
{
    let mut total: u64 = 0;
    let mut i: usize = 0;
    while i < readings.len()
        invariant
            i <= readings.len(),
            forall|j: int| 0 <= j < readings.len() ==> (#[trigger] readings@[j]).0 <= readings@[j].1,
            forall|k: int|
                0 <= k <= readings.len() ==> #[trigger] total_delta(readings@.subrange(0, k))
                    <= u64::MAX,
            total == total_delta(readings@.subrange(0, i as int)),
        decreases readings.len() - i,
    {
        let (start, end) = readings[i];
        assert(readings@.subrange(0, i + 1).drop_last() =~= readings@.subrange(0, i as int));
        assert(total_delta(readings@.subrange(0, i + 1)) <= u64::MAX);
        total = total + (end - start);
        i = i + 1;
    }
    assert(readings@.subrange(0, i as int) =~= readings@);
    total / (readings.len() as u64)
}


/// What std's `str::to_lowercase` returns for `s` (Unicode lowercase mapping).
pub uninterp spec fn lowercase(s: Seq<char>) -> Seq<char>;

/// Lowercases `s` with std's `str::to_lowercase`. Trusted: the result is
/// `lowercase` of the argument; the Unicode mapping itself is not stated.
#[verifier::external_body]
fn to_lowercase(s: &str) -> (r: String)
    ensures
        r@ == lowercase(s@),
{
    s.to_lowercase()
}

/// The characters of an optional string.
pub open spec fn opt_chars(o: Option<String>) -> Option<Seq<char>> {
    match o {
        Some(s) => Some(s@),
        None => None,
    }
}

/// `t` passes the optional language and task filters, which compare
/// case-insensitively.
pub open spec fn wanted(t: Task, language: Option<Seq<char>>, task: Option<Seq<char>>) -> bool {
    &&& language matches Some(l) ==> lowercase(t.language@) == lowercase(l)
    &&& task matches Some(n) ==> lowercase(t.name@) == lowercase(n)
}

/// The tasks of `tasks` that pass the filters, in order.
pub open spec fn selected(tasks: Seq<Task>, language: Option<Seq<char>>, task: Option<Seq<char>>) -> Seq<Task>
    decreases tasks.len(),
{
    if tasks.len() == 0 {
        seq![]
    } else {
        let rest = selected(tasks.drop_last(), language, task);
        if wanted(tasks.last(), language, task) {
            rest.push(tasks.last())
        } else {
            rest
        }
    }
}

fn lowered(o: &Option<String>) -> (r: Option<String>)
    ensures
        r is Some == o is Some,
        r is Some ==> r->0@ == lowercase(o->0@),
{
    match o {
        Some(s) => Some(to_lowercase(s.as_str())),
        None => None,
    }
}

/// The tasks whose language and name match the given filters, ignoring
/// case; a missing filter lets every task through.
pub fn select_tasks(tasks: Vec<Task>, language: &Option<String>, task: &Option<String>) -> (r: Vec<Task>)
    ensures
        r@ == selected(tasks@, opt_chars(*language), opt_chars(*task)),
{
    let lang = lowered(language);
    let name = lowered(task);
    let ghost l = opt_chars(*language);
    let ghost n = opt_chars(*task);
    let mut r: Vec<Task> = Vec::new();
    let mut i: usize = 0;
    while i < tasks.len()
        invariant
            i <= tasks.len(),
            lang is Some == l is Some,
            lang is Some ==> lang->0@ == lowercase(l->0),
            name is Some == n is Some,
            name is Some ==> name->0@ == lowercase(n->0),
            r@ == selected(tasks@.subrange(0, i as int), l, n),
        decreases tasks.len() - i,
    {
        let t = &tasks[i];
        assert(tasks@.subrange(0, i + 1).drop_last() =~= tasks@.subrange(0, i as int));
        assert(tasks@.subrange(0, i + 1).last() == *t);
        let lang_ok = match &lang {
            Some(want) => to_lowercase(t.language.as_str()) == *want,
            None => true,
        };
        let name_ok = match &name {
            Some(want) => to_lowercase(t.name.as_str()) == *want,
            None => true,
        };
        if lang_ok && name_ok {
            r.push(t.duplicate());
        }
        i = i + 1;
    }
    assert(tasks@.subrange(0, i as int) =~= tasks@);
    r
}


/// The energy of a single run is its end reading minus its start reading.
pub proof fn lemma_total_delta_single(x: (u64, u64))
    ensures
        total_delta(seq![x]) == x.1 - x.0,
{
    assert(seq![x].drop_last() =~= Seq::<(u64, u64)>::empty());
    assert(total_delta(seq![x].drop_last()) == 0);
    assert(seq![x].last() == x);
}

/// The energy of two series of runs taken together is the sum of their
/// energies: every run counts, once.
pub proof fn lemma_total_delta_additive(a: Seq<(u64, u64)>, b: Seq<(u64, u64)>)
    ensures
        total_delta(a + b) == total_delta(a) + total_delta(b),
    decreases b.len(),
{
    if b.len() == 0 {
        assert(a + b =~= a);
    } else {
        lemma_total_delta_additive(a, b.drop_last());
        assert((a + b).drop_last() =~= a + b.drop_last());
        assert((a + b).last() == b.last());
    }
}

proof fn lemma_slash_before_at(s: Seq<char>, k: int, end: int)
    requires
        0 <= k < end <= s.len(),
        s[k] == '/',
        forall|j: int| k < j < end ==> s[j] != '/',
    ensures
        slash_before(s, end) == k,
    decreases end,
{
    if end - 1 > k {
        lemma_slash_before_at(s, k, end - 1);
    }
}

proof fn lemma_slash_before_none(s: Seq<char>, end: int)
    requires
        0 <= end <= s.len(),
        forall|j: int| 0 <= j < end ==> s[j] != '/',
    ensures
        slash_before(s, end) == -1,
    decreases end,
{
    if end > 0 {
        lemma_slash_before_none(s, end - 1);
    }
}

/// For a directory `<root>/<language>/<task>` whose language and task hold
/// no `/`, the task found there is named `<task>` and its language is the
/// whole `<language>` component, whatever the lengths; `<root>` may be empty
/// or hold further `/`.
pub proof fn lemma_task_dir_components(root: Seq<char>, language: Seq<char>, task: Seq<char>)
    requires
        forall|j: int| 0 <= j < language.len() ==> language[j] != '/',
        forall|j: int| 0 <= j < task.len() ==> task[j] != '/',
    ensures
        has_slash(root + seq!['/'] + language + seq!['/'] + task),
        last_component(root + seq!['/'] + language + seq!['/'] + task) == task,
        parent_component(root + seq!['/'] + language + seq!['/'] + task) == language,
{
    let d = root + seq!['/'] + language + seq!['/'] + task;
    let l: int = root.len() + 1 + language.len() as int;
    let f: int = root.len() as int;
    assert(d[l] == '/');
    assert(d[f] == '/');
    assert forall|j: int| l < j < d.len() implies d[j] != '/' by {
        assert(d[j] == task[j - l - 1]);
    }
    assert forall|j: int| f < j < l implies d[j] != '/' by {
        assert(d[j] == language[j - f - 1]);
    }
    lemma_slash_before_at(d, l, d.len() as int);
    lemma_slash_before_at(d, f, l);
    assert(d.subrange(l + 1, d.len() as int) =~= task);
    assert(d.subrange(f + 1, l) =~= language);
}

/// For a directory `<language>/<task>` with a single `/`, the language is the
/// whole text before it.
pub proof fn lemma_single_slash_components(language: Seq<char>, task: Seq<char>)
    requires
        forall|j: int| 0 <= j < language.len() ==> language[j] != '/',
        forall|j: int| 0 <= j < task.len() ==> task[j] != '/',
    ensures
        has_slash(language + seq!['/'] + task),
        last_component(language + seq!['/'] + task) == task,
        parent_component(language + seq!['/'] + task) == language,
{
    let d = language + seq!['/'] + task;
    let l = language.len() as int;
    assert(d[l] == '/');
    assert forall|j: int| l < j < d.len() implies d[j] != '/' by {
        assert(d[j] == task[j - l - 1]);
    }
    assert forall|j: int| 0 <= j < l implies d[j] != '/' by {
        assert(d[j] == language[j]);
    }
    lemma_slash_before_at(d, l, d.len() as int);
    lemma_slash_before_none(d, l);
    assert(d.subrange(l + 1, d.len() as int) =~= task);
    assert(d.subrange(0, l) =~= language);
}

/// A directory `<root>/<language>/<task>` whose task is not `node_modules`
/// gives exactly one task, with that directory, that whole language and that
/// task name; one whose task is `node_modules` gives none.
pub proof fn lemma_discovered_task_dir(root: Seq<char>, language: Seq<char>, task: Seq<char>)
    requires
        forall|j: int| 0 <= j < language.len() ==> language[j] != '/',
        forall|j: int| 0 <= j < task.len() ==> task[j] != '/',
    ensures
        task != "node_modules"@ ==> discovered(seq![root + seq!['/'] + language + seq!['/'] + task])
            == seq![(root + seq!['/'] + language + seq!['/'] + task, language, task)],
        task == "node_modules"@ ==> discovered(seq![root + seq!['/'] + language + seq!['/'] + task])
            == Seq::<(Seq<char>, Seq<char>, Seq<char>)>::empty(),
{
    let d = root + seq!['/'] + language + seq!['/'] + task;
    lemma_task_dir_components(root, language, task);
    assert(seq![d].drop_last() =~= Seq::<Seq<char>>::empty());
    assert(seq![d].last() == d);
    let empty = Seq::<(Seq<char>, Seq<char>, Seq<char>)>::empty();
    assert(discovered(seq![d].drop_last()) == empty);
    assert(last_component(d) == task);
    assert(parent_component(d) == language);
    if task != "node_modules"@ {
        assert(discovered(seq![d]) == empty.push((d, language, task)));
        assert(empty.push((d, language, task)) =~= seq![(d, language, task)]);
    } else {
        assert(discovered(seq![d]) == empty);
    }
}

} // verus!
