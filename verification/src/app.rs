//! The benchmark scheduler: which task runs next, how many runs of each
//! task are done, and what the status bar says. The scheduler decides; the
//! caller performs the returned `Action` (sleep, run or compile a task) and
//! reports back with `next` or `done`.
use vstd::prelude::*;
use rand::seq::SliceRandom;
use vstd::string::*;
use crate::benchmark::{Export, Task};
use crate::text::{chars_of, decimal, lex_less, lex_lt, push_decimal, lemma_lex_lt_irreflexive,
    lemma_lex_lt_total, lemma_lex_lt_transitive};

verus! {

/// What the tool does with each task.
#[derive(Debug, Clone, Copy, PartialEq, Eq)]
pub enum Mode {
    /// Run every task `runs` times, in order or shuffled, pausing `cooldown`
    /// seconds between runs.
    Run { runs: u64, ordered: bool, cooldown: u64 },
    /// Compile every task once.
    Compile,
}

/// How the progress table shows run counts.
#[derive(Debug, Clone, Copy, PartialEq, Eq)]
pub enum Display {
    Percent,
    Fraction,
}

/// How many tasks share one name (or one language).
#[derive(Debug, Clone)]
pub struct Count {
    pub key: String,
    pub count: u64,
}

/// How many runs of the task `task` in language `language` are done.
#[derive(Debug, Clone)]
pub struct Progress {
    pub language: String,
    pub task: String,
    pub done: u64,
}

impl Progress {
    pub open spec fn key(self) -> (Seq<char>, Seq<char>) {
        (self.language@, self.task@)
    }
}

/// A pause before a run, announced by a status message.
#[derive(Debug, Clone)]
pub struct Pause {
    pub message: String,
    pub seconds: u64,
}

/// What the caller is to do next.
#[derive(Debug, Clone)]
pub enum Action {
    /// Every task is done.
    Finished,
    /// Pause if asked, show `status`, run `task` and report its result with `done`.
    Run { task: Task, pause: Option<Pause>, status: String },
    /// Compile `task` and report with `next`.
    Compile { task: Task },
}

/// Number of occurrences of `k` in `keys`.
pub open spec fn occurrences(keys: Seq<Seq<char>>, k: Seq<char>) -> nat
    decreases keys.len(),
{
    if keys.len() == 0 {
        0
    } else {
        occurrences(keys.drop_last(), k) + if keys.last() == k {
            1nat
        } else {
            0nat
        }
    }
}

/// `counts` tallies `keys`: one entry per distinct key, holding how often
/// the key occurs.
pub open spec fn tallies(counts: Seq<Count>, keys: Seq<Seq<char>>) -> bool {
    &&& forall|i: int, j: int|
        0 <= i < j < counts.len() ==> (#[trigger] counts[i]).key@ != (#[trigger] counts[j]).key@
    &&& forall|i: int|
        0 <= i < counts.len() ==> (#[trigger] counts[i]).count == occurrences(keys, counts[i].key@)
            && counts[i].count > 0
    &&& forall|j: int|
        0 <= j < keys.len() ==> exists|i: int|
            0 <= i < counts.len() && (#[trigger] counts[i]).key@ == #[trigger] keys[j]
}

/// The names of `tasks`, in order.
pub open spec fn names_of(tasks: Seq<Task>) -> Seq<Seq<char>> {
    tasks.map_values(|t: Task| t.name@)
}

/// The languages of `tasks`, in order.
pub open spec fn languages_of(tasks: Seq<Task>) -> Seq<Seq<char>> {
    tasks.map_values(|t: Task| t.language@)
}

proof fn lemma_occurrences_bound(keys: Seq<Seq<char>>, k: Seq<char>)
    ensures
        occurrences(keys, k) <= keys.len(),
    decreases keys.len(),
{
    if keys.len() > 0 {
        lemma_occurrences_bound(keys.drop_last(), k);
    }
}

/// Position of the entry for `key` in `counts`, if any.
fn find_count(counts: &Vec<Count>, key: &String) -> (r: Option<usize>)
    ensures
        r is Some ==> r->0 < counts.len() && counts@[r->0 as int].key@ == key@,
        r is None ==> forall|i: int| 0 <= i < counts.len() ==> (#[trigger] counts@[i]).key@ != key@,
{
    let mut i: usize = 0;
    while i < counts.len()
        invariant
            i <= counts.len(),
            forall|j: int| 0 <= j < i ==> (#[trigger] counts@[j]).key@ != key@,
        decreases counts.len() - i,
    {
        if counts[i].key == *key {
            return Some(i);
        }
        i = i + 1;
    }
    None
}

/// Tally of `keys`: each distinct key with its number of occurrences, in
/// order of first occurrence.
pub fn tally(keys: &Vec<String>) -> (r: Vec<Count>)
    ensures
        tallies(r@, keys@.map_values(|k: String| k@)),
{
    let ghost all = keys@.map_values(|k: String| k@);
    let mut counts: Vec<Count> = Vec::new();
    let mut i: usize = 0;
    while i < keys.len()
        invariant
            i <= keys.len(),
            all == keys@.map_values(|k: String| k@),
            tallies(counts@, all.subrange(0, i as int)),
        decreases keys.len() - i,
    {
        let ghost before = all.subrange(0, i as int);
        let ghost after = all.subrange(0, i + 1);
        assert(after.drop_last() =~= before);
        assert(after.last() == keys@[i as int]@);
        let ghost old_counts = counts@;
        let ghost mut pos: int = 0;
        match find_count(&counts, &keys[i]) {
            Some(p) => {
                proof {
                    pos = p as int;
                }
                proof {
                    lemma_occurrences_bound(before, keys@[i as int]@);
                }
                let c = counts[p].count;
                let k = counts[p].key.clone();
                counts.set(p, Count { key: k, count: c + 1 });
            },
            None => {
                counts.push(Count { key: keys[i].clone(), count: 1 });
                proof {
                    pos = counts@.len() - 1;
                }
                assert(occurrences(before, keys@[i as int]@) == 0) by {
                    if occurrences(before, keys@[i as int]@) > 0 {
                        lemma_occurrences_positive(before, keys@[i as int]@);
                        let j = choose|j: int| 0 <= j < before.len() && before[j] == keys@[i as int]@;
                        let q = choose|q: int| 0 <= q < old_counts.len() && (#[trigger] old_counts[q]).key@ == before[j];
                        assert(old_counts[q].key@ == keys@[i as int]@);
                    }
                }
            },
        }
        assert forall|j: int| 0 <= j < after.len() implies exists|q: int|
            0 <= q < counts@.len() && (#[trigger] counts@[q]).key@ == #[trigger] after[j] by {
            if j < before.len() {
                assert(after[j] == before[j]);
                let q = choose|q: int| 0 <= q < old_counts.len() && (#[trigger] old_counts[q]).key@ == before[j];
                assert(counts@[q].key@ == old_counts[q].key@);
            } else {
                assert(counts@[pos].key@ == after[j]);
            }
        }
        i = i + 1;
    }
    assert(all.subrange(0, i as int) =~= all);
    counts
}

proof fn lemma_occurrences_positive(keys: Seq<Seq<char>>, k: Seq<char>)
    requires
        occurrences(keys, k) > 0,
    ensures
        exists|j: int| 0 <= j < keys.len() && keys[j] == k,
    decreases keys.len(),
{
    if keys.last() == k {
        assert(keys[keys.len() - 1] == k);
    } else {
        lemma_occurrences_positive(keys.drop_last(), k);
        let j = choose|j: int| 0 <= j < keys.len() - 1 && keys.drop_last()[j] == k;
        assert(keys[j] == k);
    }
}


/// No two entries of `status` are for the same (language, task) pair.
pub open spec fn distinct_keys(status: Seq<Progress>) -> bool {
    forall|i: int, j: int|
        0 <= i < j < status.len() ==> (#[trigger] status[i]).key() != (#[trigger] status[j]).key()
}

/// The keys of the entries of `status`, in order.
pub open spec fn keys_of(status: Seq<Progress>) -> Seq<(Seq<char>, Seq<char>)> {
    status.map_values(|p: Progress| p.key())
}

/// Every task of `tasks` has an entry in `status`.
pub open spec fn covers(status: Seq<Progress>, tasks: Seq<Task>) -> bool {
    forall|j: int| 0 <= j < tasks.len() ==> keys_of(status).contains((#[trigger] tasks[j]).key())
}

proof fn lemma_covers_same_keys(before: Seq<Progress>, after: Seq<Progress>, tasks: Seq<Task>)
    requires
        covers(before, tasks),
        after.len() == before.len(),
        forall|i: int| 0 <= i < after.len() ==> (#[trigger] after[i]).key() == before[i].key(),
    ensures
        covers(after, tasks),
{
    assert forall|j: int| 0 <= j < tasks.len() implies keys_of(after).contains(
        (#[trigger] tasks[j]).key(),
    ) by {
        let i = choose|i: int| 0 <= i < before.len() && keys_of(before)[i] == tasks[j].key();
        assert(keys_of(after)[i] == after[i].key());
    }
}

/// `status` holds one entry with no finished run for each distinct
/// (language, task) pair of `tasks`, and nothing else.
pub open spec fn fresh_progress(status: Seq<Progress>, tasks: Seq<Task>) -> bool {
    &&& distinct_keys(status)
    &&& covers(status, tasks)
    &&& forall|i: int|
        0 <= i < status.len() ==> (#[trigger] status[i]).done == 0 && exists|j: int|
            0 <= j < tasks.len() && (#[trigger] tasks[j]).key() == status[i].key()
}

/// Position of the entry for (`language`, `task`) in `status`, if any.
fn find_progress(status: &Vec<Progress>, language: &String, task: &String) -> (r: Option<usize>)
    ensures
        r is Some ==> r->0 < status.len() && status@[r->0 as int].key() == (language@, task@),
        r is None ==> forall|i: int|
            0 <= i < status.len() ==> (#[trigger] status@[i]).key() != (language@, task@),
{
    let mut i: usize = 0;
    while i < status.len()
        invariant
            i <= status.len(),
            forall|j: int| 0 <= j < i ==> (#[trigger] status@[j]).key() != (language@, task@),
        decreases status.len() - i,
    {
        if status[i].language == *language && status[i].task == *task {
            return Some(i);
        }
        i = i + 1;
    }
    None
}

/// Adds an entry with no finished run for `t` unless `status` has one.
fn add_progress(status: &mut Vec<Progress>, t: &Task)
    requires
        distinct_keys(old(status)@),
    ensures
        distinct_keys(final(status)@),
        exists|pos: int| 0 <= pos < final(status)@.len() && (#[trigger] final(status)@[pos]).key() == t.key()
            && (final(status)@.len() == old(status)@.len() || (final(status)@.len() == old(status)@.len() + 1
            && pos == old(status)@.len() && final(status)@[pos].done == 0)),
        final(status)@.len() >= old(status)@.len(),
        forall|q: int| 0 <= q < old(status)@.len() ==> final(status)@[q] == old(status)@[q],
{
    match find_progress(status, &t.language, &t.name) {
        Some(p) => {
            assert(status@[p as int].key() == t.key());
        },
        None => {
            status.push(Progress { language: t.language.clone(), task: t.name.clone(), done: 0 });
            assert(status@[status@.len() - 1].key() == t.key());
        },
    }
}

/// One progress entry with no finished run per distinct task of `tasks`.
pub fn progress_table(tasks: &Vec<Task>) -> (r: Vec<Progress>)
    ensures
        fresh_progress(r@, tasks@),
{
    let mut status: Vec<Progress> = Vec::new();
    let mut i: usize = 0;
    while i < tasks.len()
        invariant
            i <= tasks.len(),
            fresh_progress(status@, tasks@.subrange(0, i as int)),
        decreases tasks.len() - i,
    {
        let ghost before = tasks@.subrange(0, i as int);
        let ghost old_status = status@;
        add_progress(&mut status, &tasks[i]);
        let ghost pos = choose|pos: int| 0 <= pos < status@.len() && (#[trigger] status@[pos]).key() == tasks@[i as int].key()
            && (status@.len() == old_status.len() || (status@.len() == old_status.len() + 1
            && pos == old_status.len() && status@[pos].done == 0));
        assert(tasks@.subrange(0, i + 1) =~= before.push(tasks@[i as int]));
        proof {
            lemma_progress_step(old_status, status@, before, tasks@[i as int], pos);
        }
        i = i + 1;
    }
    assert(tasks@.subrange(0, i as int) =~= tasks@);
    status
}

proof fn lemma_progress_step(
    old_status: Seq<Progress>,
    status: Seq<Progress>,
    before: Seq<Task>,
    t: Task,
    pos: int,
)
    requires
        fresh_progress(old_status, before),
        distinct_keys(status),
        0 <= pos < status.len(),
        status[pos].key() == t.key(),
        status.len() == old_status.len() || (status.len() == old_status.len() + 1 && pos
            == old_status.len() && status[pos].done == 0),
        forall|q: int| 0 <= q < old_status.len() ==> status[q] == old_status[q],
    ensures
        fresh_progress(status, before.push(t)),
{
    let after = before.push(t);
    assert forall|j: int| 0 <= j < after.len() implies keys_of(status).contains(
        (#[trigger] after[j]).key(),
    ) by {
        if j < before.len() {
            assert(after[j] == before[j]);
            let q = choose|q: int| 0 <= q < old_status.len() && keys_of(old_status)[q] == before[j].key();
            assert(status[q] == old_status[q]);
            assert(keys_of(status)[q] == after[j].key());
        } else {
            assert(after[j] == t);
            assert(keys_of(status)[pos] == after[j].key());
        }
    }
    assert forall|q: int| 0 <= q < status.len() implies (#[trigger] status[q]).done == 0
        && exists|j: int| 0 <= j < after.len() && (#[trigger] after[j]).key() == status[q].key() by {
        if q < old_status.len() {
            assert(status[q] == old_status[q]);
            let j = choose|j: int|
                0 <= j < before.len() && (#[trigger] before[j]).key() == old_status[q].key();
            assert(after[j] == before[j]);
        } else {
            assert(q == pos);
            assert(after[before.len() as int] == t);
        }
    }
}

/// Each task of `s`, in order, repeated `n` times in a row.
pub open spec fn repeat_each(s: Seq<Task>, n: nat) -> Seq<Task>
    decreases s.len(),
{
    if s.len() == 0 {
        seq![]
    } else {
        repeat_each(s.drop_last(), n) + Seq::new(n, |_i: int| s.last())
    }
}

proof fn lemma_repeat_each_members(s: Seq<Task>, n: nat)
    ensures
        repeat_each(s, n).len() == s.len() * n,
        forall|k: int|
            0 <= k < repeat_each(s, n).len() ==> exists|j: int|
                0 <= j < s.len() && s[j] == #[trigger] repeat_each(s, n)[k],
    decreases s.len(),
{
    if s.len() > 0 {
        let front = repeat_each(s.drop_last(), n);
        lemma_repeat_each_members(s.drop_last(), n);
        assert(s.len() * n == (s.len() - 1) * n + n) by (nonlinear_arith);
        assert forall|k: int| 0 <= k < repeat_each(s, n).len() implies exists|j: int|
            0 <= j < s.len() && s[j] == #[trigger] repeat_each(s, n)[k] by {
            if k < front.len() {
                let j = choose|j: int|
                    0 <= j < s.drop_last().len() && s.drop_last()[j] == #[trigger] front[k];
                assert(s[j] == repeat_each(s, n)[k]);
            } else {
                assert(repeat_each(s, n)[k] == s[s.len() - 1]);
            }
        }
    }
}

/// Each task of `tasks`, in order, repeated `runs` times in a row.
fn repeat_runs(tasks: &Vec<Task>, runs: u64) -> (r: Vec<Task>)
    ensures
        r@ == repeat_each(tasks@, runs as nat),
{
    let mut r: Vec<Task> = Vec::new();
    let mut i: usize = 0;
    while i < tasks.len()
        invariant
            i <= tasks.len(),
            r@ == repeat_each(tasks@.subrange(0, i as int), runs as nat),
        decreases tasks.len() - i,
    {
        let ghost base = r@;
        let mut k: u64 = 0;
        while k < runs
            invariant
                i < tasks.len(),
                k <= runs,
                r@ == base + Seq::new(k as nat, |_j: int| tasks@[i as int]),
            decreases runs - k,
        {
            r.push(tasks[i].duplicate());
            k = k + 1;
            assert(r@ =~= base + Seq::new(k as nat, |_j: int| tasks@[i as int]));
        }
        assert(tasks@.subrange(0, i + 1).drop_last() =~= tasks@.subrange(0, i as int));
        i = i + 1;
    }
    assert(tasks@.subrange(0, i as int) =~= tasks@);
    r
}

/// Puts the tasks in a random order (rand's `SliceRandom::shuffle` with the
/// thread-local generator). Trusted: the result is a permutation of the
/// input, as rand's swap-only Fisher-Yates implementation guarantees; which
/// permutation comes out is left open.
#[verifier::external_body]
fn shuffle_tasks(tasks: &mut Vec<Task>)
    ensures
        final(tasks)@.to_multiset() == old(tasks)@.to_multiset(),
{
    tasks.shuffle(&mut rand::rng());
}


fn names(tasks: &Vec<Task>) -> (r: Vec<String>)
    ensures
        r@.map_values(|k: String| k@) == names_of(tasks@),
{
    let mut r: Vec<String> = Vec::new();
    let mut i: usize = 0;
    while i < tasks.len()
        invariant
            i <= tasks.len(),
            r.len() == i,
            forall|k: int| 0 <= k < i ==> (#[trigger] r@[k])@ == tasks@[k].name@,
        decreases tasks.len() - i,
    {
        r.push(tasks[i].name.clone());
        i = i + 1;
    }
    assert(r@.map_values(|k: String| k@) =~= names_of(tasks@));
    r
}

fn languages(tasks: &Vec<Task>) -> (r: Vec<String>)
    ensures
        r@.map_values(|k: String| k@) == languages_of(tasks@),
{
    let mut r: Vec<String> = Vec::new();
    let mut i: usize = 0;
    while i < tasks.len()
        invariant
            i <= tasks.len(),
            r.len() == i,
            forall|k: int| 0 <= k < i ==> (#[trigger] r@[k])@ == tasks@[k].language@,
        decreases tasks.len() - i,
    {
        r.push(tasks[i].language.clone());
        i = i + 1;
    }
    assert(r@.map_values(|k: String| k@) =~= languages_of(tasks@));
    r
}


/// Strict order of (language, task) keys: by language, then by task, each
/// lexicographically (the order of Rust's `(String, String)` comparison).
pub open spec fn key_lt(a: (Seq<char>, Seq<char>), b: (Seq<char>, Seq<char>)) -> bool {
    lex_lt(a.0, b.0) || (a.0 == b.0 && lex_lt(a.1, b.1))
}

/// Non-strict order of (language, task) keys.
pub open spec fn key_le(a: (Seq<char>, Seq<char>), b: (Seq<char>, Seq<char>)) -> bool {
    key_lt(a, b) || a == b
}

/// `s` is ordered by (language, task).
pub open spec fn sorted_by_key(s: Seq<Export>) -> bool {
    forall|i: int, j: int| 0 <= i < j < s.len() ==> key_le((#[trigger] s[i]).key(), (#[trigger] s[j]).key())
}

proof fn lemma_key_lt_transitive(
    a: (Seq<char>, Seq<char>),
    b: (Seq<char>, Seq<char>),
    c: (Seq<char>, Seq<char>),
)
    requires
        key_lt(a, b),
        key_lt(b, c),
    ensures
        key_lt(a, c),
{
    if lex_lt(a.0, b.0) && lex_lt(b.0, c.0) {
        lemma_lex_lt_transitive(a.0, b.0, c.0);
    }
    lemma_lex_lt_irreflexive(a.0);
    lemma_lex_lt_irreflexive(b.0);
    if a.0 == b.0 && b.0 == c.0 {
        lemma_lex_lt_transitive(a.1, b.1, c.1);
    }
}

proof fn lemma_key_total(a: (Seq<char>, Seq<char>), b: (Seq<char>, Seq<char>))
    ensures
        key_lt(a, b) || a == b || key_lt(b, a),
        !(key_lt(a, b) && key_lt(b, a)),
{
    lemma_lex_lt_total(a.0, b.0);
    lemma_lex_lt_total(a.1, b.1);
    lemma_lex_lt_irreflexive(a.0);
    lemma_lex_lt_irreflexive(a.1);
    if key_lt(a, b) && key_lt(b, a) {
        lemma_key_lt_transitive(a, b, a);
        lemma_lex_lt_irreflexive(a.0);
    }
}

/// Whether `a` comes strictly before `b` by (language, task).
fn export_precedes(a: &Export, b: &Export) -> (r: bool)
    ensures
        r == key_lt(a.key(), b.key()),
{
    let al = chars_of(a.language.as_str());
    let bl = chars_of(b.language.as_str());
    if lex_less(&al, &bl) {
        return true;
    }
    if a.language == b.language {
        let at = chars_of(a.task.as_str());
        let bt = chars_of(b.task.as_str());
        lex_less(&at, &bt)
    } else {
        false
    }
}

proof fn lemma_insert_sorted(s: Seq<Export>, p: int, x: Export)
    requires
        sorted_by_key(s),
        0 <= p <= s.len(),
        forall|q: int| 0 <= q < p ==> !key_lt(x.key(), (#[trigger] s[q]).key()),
        p < s.len() ==> key_lt(x.key(), s[p].key()),
    ensures
        sorted_by_key(s.insert(p, x)),
{
    let t = s.insert(p, x);
    assert forall|i: int, j: int| 0 <= i < j < t.len() implies key_le((#[trigger] t[i]).key(), (#[trigger] t[j]).key()) by {
        if i == p {
            // x before a later element s[j - 1], with p <= j - 1
            assert(t[j] == s[j - 1]);
            if j - 1 > p {
                assert(key_le(s[p].key(), s[j - 1].key()));
                if key_lt(s[p].key(), s[j - 1].key()) {
                    lemma_key_lt_transitive(x.key(), s[p].key(), s[j - 1].key());
                }
            }
        } else if j == p {
            assert(t[i] == s[i]);
            lemma_key_total(x.key(), s[i].key());
        } else if i < p && j > p {
            assert(t[i] == s[i]);
            assert(t[j] == s[j - 1]);
        } else if j < p {
            assert(t[i] == s[i]);
            assert(t[j] == s[j]);
        } else {
            assert(t[i] == s[i - 1]);
            assert(t[j] == s[j - 1]);
        }
    }
}

/// The results ordered by (language, task): a permutation of `v` that is
/// sorted by that key.
pub fn sort_results(v: &Vec<Export>) -> (r: Vec<Export>)
    ensures
        r@.to_multiset() == v@.to_multiset(),
        sorted_by_key(r@),
{
    broadcast use vstd::seq_lib::group_to_multiset_ensures;
    let mut out: Vec<Export> = Vec::new();
    let mut i: usize = 0;
    while i < v.len()
        invariant
            i <= v.len(),
            out@.to_multiset() == v@.subrange(0, i as int).to_multiset(),
            sorted_by_key(out@),
        decreases v.len() - i,
    {
        let x = v[i].duplicate();
        let mut p: usize = 0;
        while p < out.len() && !export_precedes(&x, &out[p])
            invariant
                p <= out.len(),
                forall|q: int| 0 <= q < p ==> !key_lt(x.key(), (#[trigger] out@[q]).key()),
            decreases out.len() - p,
        {
            p = p + 1;
        }
        let ghost prev = out@;
        proof {
            lemma_insert_sorted(out@, p as int, x);
            vstd::seq_lib::to_multiset_insert(out@, p as int, x);
            assert(v@.subrange(0, i + 1) =~= v@.subrange(0, i as int).push(v@[i as int]));
            v@.subrange(0, i as int).to_multiset_ensures();
        }
        out.insert(p, x);
        assert(out@ == prev.insert(p as int, x));
        i = i + 1;
    }
    assert(v@.subrange(0, i as int) =~= v@);
    out
}

/// The state of a benchmark session.
pub struct App {
    /// Whether the session goes on.
    pub running: bool,
    pub mode: Mode,
    pub display_mode: Display,
    /// Runs per task.
    pub runs: u64,
    /// Whether the runs keep the order of the tasks.
    pub ordered: bool,
    /// Seconds of pause between runs.
    pub cooldown: u64,
    /// How many entries of `tasks` are done.
    pub curr_task: usize,
    /// Finished runs per (language, task).
    pub status: Vec<Progress>,
    /// The status bar's text.
    pub status_text: String,
    /// The work list: every task, once per run.
    pub tasks: Vec<Task>,
    /// Number of languages per task name.
    pub task_count: Vec<Count>,
    /// Number of tasks per language.
    pub lang_count: Vec<Count>,
    /// Results of the finished runs.
    pub results: Vec<Export>,
}

/// Runs per task, order and cooldown that `mode` asks for.
pub open spec fn mode_settings(mode: Mode) -> (u64, bool, u64) {
    match mode {
        Mode::Run { runs, ordered, cooldown } => (runs, ordered, cooldown),
        Mode::Compile => (1, true, 0),
    }
}

impl App {
    /// The session's invariant: the position lies within the work list,
    /// every task of the work list has exactly one progress entry, and no
    /// entry counts more finished runs than the position.
    pub open spec fn wf(self) -> bool {
        &&& self.curr_task <= self.tasks.len()
        &&& distinct_keys(self.status@)
        &&& covers(self.status@, self.tasks@)
        &&& forall|i: int| 0 <= i < self.status@.len() ==> (#[trigger] self.status@[i]).done <= self.curr_task
    }

    /// `self` and `other` agree on everything but the position, the progress
    /// entries, the status text and the results.
    pub open spec fn same_plan(self, other: App) -> bool {
        &&& self.running == other.running
        &&& self.mode == other.mode
        &&& self.display_mode == other.display_mode
        &&& self.runs == other.runs
        &&& self.ordered == other.ordered
        &&& self.cooldown == other.cooldown
        &&& self.tasks@ == other.tasks@
        &&& self.task_count@ == other.task_count@
        &&& self.lang_count@ == other.lang_count@
    }

    /// A session for `tasks` in mode `mode`: the work list holds every task
    /// `runs` times (consecutively and in order when `ordered`, shuffled
    /// otherwise); task names and languages are tallied, and every distinct
    /// task gets a progress entry with no finished run.
    pub fn new(tasks: Vec<Task>, mode: Mode) -> (app: App)
        ensures
            app.wf(),
            app.mode == mode,
            (app.runs, app.ordered, app.cooldown) == mode_settings(mode),
            mode matches Mode::Run { runs, ordered, cooldown } ==> app.runs == runs && app.ordered
                == ordered && app.cooldown == cooldown,
            mode is Compile ==> app.runs == 1 && app.ordered && app.cooldown == 0,
            app.running,
            app.display_mode == Display::Percent,
            app.curr_task == 0,
            app.status_text@ == Seq::<char>::empty(),
            app.results@ == Seq::<Export>::empty(),
            tallies(app.task_count@, names_of(tasks@)),
            tallies(app.lang_count@, languages_of(tasks@)),
            fresh_progress(app.status@, tasks@),
            app.ordered ==> app.tasks@ == repeat_each(tasks@, app.runs as nat),
            app.tasks@.to_multiset() == repeat_each(tasks@, app.runs as nat).to_multiset(),
    {
        let mut runs: u64 = 1;
        let mut ordered = true;
        let mut cooldown: u64 = 0;
        match mode {
            Mode::Run { runs: r, ordered: o, cooldown: c } => {
                runs = r;
                ordered = o;
                cooldown = c;
            },
            Mode::Compile => {},
        }
        let task_count = tally(&names(&tasks));
        let lang_count = tally(&languages(&tasks));
        let status = progress_table(&tasks);
        let mut work = repeat_runs(&tasks, runs);
        let ghost repeated = work@;
        if !ordered {
            shuffle_tasks(&mut work);
        }
        proof {
            lemma_repeat_each_members(tasks@, runs as nat);
            assert forall|k: int| 0 <= k < work@.len() implies exists|i: int|
                0 <= i < status@.len() && (#[trigger] status@[i]).key() == (#[trigger] work@[k]).key() by {
                if ordered {
                    assert(work@[k] == repeated[k]);
                } else {
                    broadcast use vstd::seq_lib::to_multiset_contains;
                    assert(work@.contains(work@[k]));
                    assert(work@.to_multiset().count(work@[k]) > 0);
                    assert(repeated.to_multiset().count(work@[k]) > 0);
                    assert(repeated.contains(work@[k]));
                }
                let m = choose|m: int| 0 <= m < repeated.len() && repeated[m] == work@[k];
                let j = choose|j: int| 0 <= j < tasks@.len() && tasks@[j] == #[trigger] repeated[m];
                assert(tasks@[j].key() == work@[k].key());
            }
        }
        App {
            running: true,
            mode,
            display_mode: Display::Percent,
            runs,
            ordered,
            cooldown,
            curr_task: 0,
            status,
            status_text: String::new(),
            tasks: work,
            task_count,
            lang_count,
            results: Vec::new(),
        }
    }
}


/// The status text announcing a run: `Running <language> <task> - <n>/<runs>`.
pub open spec fn running_text(language: Seq<char>, task: Seq<char>, n: nat, runs: nat) -> Seq<char> {
    "Running "@ + language + " "@ + task + " - "@ + decimal(n) + "/"@ + decimal(runs)
}

/// The status text announcing a pause of `seconds` seconds.
pub open spec fn cooling_text(seconds: nat) -> Seq<char> {
    "Cooling down for "@ + decimal(seconds) + " second(s)"@
}

/// Finished runs recorded in `status` for `key`.
pub open spec fn done_runs(status: Seq<Progress>, key: (Seq<char>, Seq<char>)) -> nat {
    status[choose|i: int| 0 <= i < status.len() && (#[trigger] status[i]).key() == key].done as nat
}

/// `a` is what the session `pre` asks for at position `curr` of its work
/// list, `status` being its progress: in run mode, run the task there, after
/// a pause unless it is the first one, announcing it with its run number;
/// in compile mode, compile it.
pub open spec fn dispatched(pre: App, curr: int, status: Seq<Progress>, a: Action) -> bool {
    let t = pre.tasks@[curr];
    match pre.mode {
        Mode::Run { .. } => {
            &&& a matches Action::Run { task, pause, status: msg } && {
                &&& task == t
                &&& msg@ == running_text(
                    t.language@,
                    t.name@,
                    done_runs(status, t.key()) + 1,
                    pre.runs as nat,
                )
                &&& if curr == 0 {
                    pause is None
                } else {
                    pause matches Some(p) && p.seconds == pre.cooldown && p.message@ == cooling_text(
                        pre.cooldown as nat,
                    )
                }
            }
        },
        Mode::Compile => a matches Action::Compile { task } && task == t,
    }
}

/// `post` and `a` are the outcome of dispatching at position `curr` in the
/// session `pre`, with progress `status`, results `results` and status text
/// `text`: past the end of the work list, the results get sorted, the
/// status text says `Done!` and nothing is left to do; otherwise the
/// action for position `curr` is returned and nothing else changes.
pub open spec fn iteration(
    pre: App,
    curr: int,
    status: Seq<Progress>,
    results: Seq<Export>,
    text: Seq<char>,
    post: App,
    a: Action,
) -> bool {
    &&& post.same_plan(pre)
    &&& post.curr_task == curr
    &&& post.status@ == status
    &&& if curr == pre.tasks.len() {
        &&& a is Finished
        &&& post.status_text@ == "Done!"@
        &&& post.results@.to_multiset() == results.to_multiset()
        &&& sorted_by_key(post.results@)
    } else {
        &&& post.results@ == results
        &&& post.status_text@ == text
        &&& dispatched(pre, curr, status, a)
    }
}

/// `status` with one more finished run for `key`.
pub open spec fn bumped(status: Seq<Progress>, key: (Seq<char>, Seq<char>)) -> Seq<Progress> {
    status.map_values(
        |p: Progress|
            if p.key() == key {
                Progress { language: p.language, task: p.task, done: (p.done + 1) as u64 }
            } else {
                p
            },
    )
}

/// Counts one more finished run for (`language`, `task`), if it has an entry.
fn bump_progress(status: &mut Vec<Progress>, language: &String, task: &String, bound: usize)
    requires
        distinct_keys(old(status)@),
        forall|i: int| 0 <= i < old(status)@.len() ==> (#[trigger] old(status)@[i]).done < bound,
    ensures
        final(status)@ == bumped(old(status)@, (language@, task@)),
{
    let ghost key = (language@, task@);
    let ghost before = status@;
    match find_progress(status, language, task) {
        Some(p) => {
            let entry = Progress {
                language: status[p].language.clone(),
                task: status[p].task.clone(),
                done: status[p].done + 1,
            };
            status.set(p, entry);
            assert forall|i: int| 0 <= i < status@.len() implies #[trigger] status@[i] == bumped(
                before,
                key,
            )[i] by {
                if i != p {
                    assert(status@[i] == before[i]);
                    if before[i].key() == key {
                        if i < p {
                            assert(before[i].key() != before[p as int].key());
                        } else {
                            assert(before[p as int].key() != before[i].key());
                        }
                    }
                }
            }
            assert(status@ =~= bumped(before, key));
        },
        None => {
            assert(status@ =~= bumped(status@, key));
        },
    }
}


/// The status text announcing run `n` of `runs` of `task`.
fn running_message(t: &Task, n: u64, runs: u64) -> (r: String)
    ensures
        r@ == running_text(t.language@, t.name@, n as nat, runs as nat),
{
    let mut m = String::new();
    m.append("Running ");
    m.append(t.language.as_str());
    m.append(" ");
    m.append(t.name.as_str());
    m.append(" - ");
    push_decimal(&mut m, n);
    m.append("/");
    push_decimal(&mut m, runs);
    m
}

/// The status text announcing a pause of `seconds` seconds.
fn cooling_message(seconds: u64) -> (r: String)
    ensures
        r@ == cooling_text(seconds as nat),
{
    let mut m = String::new();
    m.append("Cooling down for ");
    push_decimal(&mut m, seconds);
    m.append(" second(s)");
    m
}

/// The other display mode.
pub open spec fn toggled(d: Display) -> Display {
    match d {
        Display::Percent => Display::Fraction,
        Display::Fraction => Display::Percent,
    }
}

/// Switching the display mode twice gives back the mode one started with.
pub proof fn lemma_toggle_twice(d: Display)
    ensures
        toggled(toggled(d)) == d,
{
}

impl App {
    /// What to do at the current position of the work list. Past its end,
    /// the results are sorted by (language, task), the status text becomes
    /// `Done!` and `Action::Finished` is returned; otherwise the task there
    /// is to be run (with a pause first unless it is the first entry, and
    /// announced as its next run) or compiled, and nothing changes.
    pub fn iterate(&mut self) -> (a: Action)
        requires
            old(self).wf(),
        ensures
            final(self).wf(),
            iteration(
                *old(self),
                old(self).curr_task as int,
                old(self).status@,
                old(self).results@,
                old(self).status_text@,
                *final(self),
                a,
            ),
    {
        if self.curr_task == self.tasks.len() {
            self.status_text = String::from_str("Done!");
            self.results = sort_results(&self.results);
            return Action::Finished;
        }
        let task = self.tasks[self.curr_task].duplicate();
        match self.mode {
            Mode::Compile => Action::Compile { task },
            Mode::Run { .. } => {
                let ghost key = task.key();
                assert(self.tasks@[self.curr_task as int] == task);
                let p = match find_progress(&self.status, &task.language, &task.name) {
                    Some(p) => p,
                    None => {
                        assert(false);
                        0
                    },
                };
                proof {
                    let i = choose|i: int| 0 <= i < self.status@.len() && (#[trigger] self.status@[i]).key() == key;
                    if i != p {
                        if i < p {
                            assert(self.status@[i].key() != self.status@[p as int].key());
                        } else {
                            assert(self.status@[p as int].key() != self.status@[i].key());
                        }
                    }
                    assert(done_runs(self.status@, key) == self.status@[p as int].done);
                }
                let done = self.status[p].done;
                let status = running_message(&task, done + 1, self.runs);
                let pause = if self.curr_task == 0 {
                    None
                } else {
                    Some(Pause { message: cooling_message(self.cooldown), seconds: self.cooldown })
                };
                Action::Run { task, pause, status }
            },
        }
    }

    /// Records that the current entry of the work list, a run or compilation
    /// of (`data.0`, `data.1`), has finished: moves to the next entry, counts
    /// one more finished run for that task, and dispatches as `iterate` does.
    pub fn next(&mut self, data: (String, String)) -> (a: Action)
        requires
            old(self).wf(),
            old(self).curr_task < old(self).tasks.len(),
        ensures
            final(self).wf(),
            iteration(
                *old(self),
                old(self).curr_task + 1,
                bumped(old(self).status@, (data.0@, data.1@)),
                old(self).results@,
                old(self).status_text@,
                *final(self),
                a,
            ),
    {
        self.curr_task = self.curr_task + 1;
        self.update(data);
        self.iterate()
    }

    /// Counts one more finished run for (`data.0`, `data.1`), if the task
    /// has an entry.
    fn update(&mut self, data: (String, String))
        requires
            old(self).curr_task <= old(self).tasks.len(),
            distinct_keys(old(self).status@),
            covers(old(self).status@, old(self).tasks@),
            forall|i: int|
                0 <= i < old(self).status@.len() ==> (#[trigger] old(self).status@[i]).done
                    < old(self).curr_task,
        ensures
            final(self).wf(),
            final(self).same_plan(*old(self)),
            final(self).curr_task == old(self).curr_task,
            final(self).status@ == bumped(old(self).status@, (data.0@, data.1@)),
            final(self).results@ == old(self).results@,
            final(self).status_text@ == old(self).status_text@,
    {
        let ghost before = self.status@;
        let ghost key = (data.0@, data.1@);
        bump_progress(&mut self.status, &data.0, &data.1, self.curr_task);
        assert forall|i: int| 0 <= i < self.status@.len() implies (#[trigger] self.status@[i]).key()
            == before[i].key() && self.status@[i].done <= self.curr_task by {
            assert(self.status@[i] == bumped(before, key)[i]);
            assert(before[i].done < self.curr_task);
            assert(self.curr_task <= usize::MAX);
            if before[i].key() == key {
                assert(self.status@[i].done == before[i].done + 1);
            }
        }
        assert forall|i: int, j: int| 0 <= i < j < self.status@.len() implies (
        #[trigger] self.status@[i]).key() != (#[trigger] self.status@[j]).key() by {
            assert(before[i].key() != before[j].key());
        }
        proof {
            lemma_covers_same_keys(before, self.status@, self.tasks@);
        }
        assert(covers(self.status@, self.tasks@));
    }

    /// Records the result `data` of the current run: appends it to the
    /// results, then moves on as `next` does.
    pub fn done(&mut self, data: Export) -> (a: Action)
        requires
            old(self).wf(),
            old(self).curr_task < old(self).tasks.len(),
        ensures
            final(self).wf(),
            iteration(
                *old(self),
                old(self).curr_task + 1,
                bumped(old(self).status@, data.key()),
                old(self).results@.push(data),
                old(self).status_text@,
                *final(self),
                a,
            ),
    {
        self.results.push(data.duplicate());
        let key = (data.language, data.task);
        self.next(key)
    }

    /// Sets the status text.
    pub fn status(&mut self, msg: String)
        ensures
            final(self).status_text == msg,
            final(self).same_plan(*old(self)),
            final(self).curr_task == old(self).curr_task,
            final(self).status@ == old(self).status@,
            final(self).results@ == old(self).results@,
    {
        self.status_text = msg;
    }

    /// Switches between percentages and fractions.
    pub fn toggle_display_mode(&mut self)
        ensures
            final(self).display_mode == toggled(old(self).display_mode),
            final(self).running == old(self).running,
            final(self).mode == old(self).mode,
            final(self).runs == old(self).runs,
            final(self).ordered == old(self).ordered,
            final(self).cooldown == old(self).cooldown,
            final(self).tasks@ == old(self).tasks@,
            final(self).task_count@ == old(self).task_count@,
            final(self).lang_count@ == old(self).lang_count@,
            final(self).curr_task == old(self).curr_task,
            final(self).status@ == old(self).status@,
            final(self).status_text@ == old(self).status_text@,
            final(self).results@ == old(self).results@,
    {
        self.display_mode = match self.display_mode {
            Display::Percent => Display::Fraction,
            Display::Fraction => Display::Percent,
        };
    }

    /// Finished runs recorded for (`language`, `task`), if the pair has a
    /// progress entry.
    pub fn progress_of(&self, language: &String, task: &String) -> (r: Option<u64>)
        requires
            distinct_keys(self.status@),
        ensures
            r is Some <==> keys_of(self.status@).contains((language@, task@)),
            r is Some ==> r->0 == done_runs(self.status@, (language@, task@)),
    {
        match find_progress(&self.status, language, task) {
            Some(p) => {
                proof {
                    let key = (language@, task@);
                    assert(keys_of(self.status@)[p as int] == key);
                    let i = choose|i: int| 0 <= i < self.status@.len() && (#[trigger] self.status@[i]).key() == key;
                    if i != p {
                        if i < p {
                            assert(self.status@[i].key() != self.status@[p as int].key());
                        } else {
                            assert(self.status@[p as int].key() != self.status@[i].key());
                        }
                    }
                }
                Some(self.status[p].done)
            },
            None => {
                proof {
                    if keys_of(self.status@).contains((language@, task@)) {
                        let i = choose|i: int| 0 <= i < self.status@.len() && keys_of(self.status@)[i] == (language@, task@);
                        assert(self.status@[i].key() == (language@, task@));
                    }
                }
                None
            },
        }
    }

    /// A clock tick: nothing to do.
    pub fn tick(&self) {
    }

    /// Ends the session.
    pub fn quit(&mut self)
        ensures
            !final(self).running,
            final(self).mode == old(self).mode,
            final(self).display_mode == old(self).display_mode,
            final(self).runs == old(self).runs,
            final(self).ordered == old(self).ordered,
            final(self).cooldown == old(self).cooldown,
            final(self).tasks@ == old(self).tasks@,
            final(self).task_count@ == old(self).task_count@,
            final(self).lang_count@ == old(self).lang_count@,
            final(self).curr_task == old(self).curr_task,
            final(self).status@ == old(self).status@,
            final(self).status_text@ == old(self).status_text@,
            final(self).results@ == old(self).results@,
    {
        self.running = false;
    }
}


proof fn lemma_constant_seq_count(n: nat, x: Task, t: Task)
    ensures
        Seq::new(n, |_i: int| x).to_multiset().count(t) == if x == t {
            n
        } else {
            0
        },
    decreases n,
{
    broadcast use vstd::seq_lib::group_to_multiset_ensures;
    broadcast use vstd::multiset::group_multiset_axioms;

    if n > 0 {
        let m = (n - 1) as nat;
        lemma_constant_seq_count(m, x, t);
        assert(Seq::new(n, |_i: int| x) =~= Seq::new(m, |_i: int| x).push(x));
    } else {
        assert(Seq::new(n, |_i: int| x) =~= Seq::<Task>::empty());
    }
}

/// Every task of the list occurs in the work list exactly `runs` times as
/// often as in the list: each task is run `runs` times.
pub proof fn lemma_runs_per_task(tasks: Seq<Task>, runs: nat, t: Task)
    ensures
        repeat_each(tasks, runs).to_multiset().count(t) == runs * tasks.to_multiset().count(t),
    decreases tasks.len(),
{
    broadcast use vstd::seq_lib::group_to_multiset_ensures;
    broadcast use vstd::multiset::group_multiset_axioms;

    if tasks.len() == 0 {
        assert(repeat_each(tasks, runs) =~= Seq::<Task>::empty());
        assert(tasks =~= Seq::<Task>::empty());
    } else {
        let front = tasks.drop_last();
        let x = tasks.last();
        lemma_runs_per_task(front, runs, t);
        lemma_constant_seq_count(runs, x, t);
        vstd::seq_lib::lemma_multiset_commutative(
            repeat_each(front, runs),
            Seq::new(runs, |_i: int| x),
        );
        assert(tasks =~= front.push(x));
        let c = front.to_multiset().count(t);
        if x == t {
            assert(runs * c + runs == runs * (c + 1)) by (nonlinear_arith);
        }
    }
}

/// Number of tasks of `tasks` whose (language, task) pair is `key`.
pub open spec fn key_occurrences(tasks: Seq<Task>, key: (Seq<char>, Seq<char>)) -> nat
    decreases tasks.len(),
{
    if tasks.len() == 0 {
        0
    } else {
        key_occurrences(tasks.drop_last(), key) + if tasks.last().key() == key {
            1nat
        } else {
            0nat
        }
    }
}

/// Every progress entry counts exactly the finished entries of the work
/// list (the first `curr`) that are for its task.
pub open spec fn counts_finished(status: Seq<Progress>, tasks: Seq<Task>, curr: int) -> bool {
    forall|i: int|
        0 <= i < status.len() ==> (#[trigger] status[i]).done == key_occurrences(
            tasks.subrange(0, curr),
            status[i].key(),
        )
}

proof fn lemma_key_occurrences_bound(tasks: Seq<Task>, key: (Seq<char>, Seq<char>))
    ensures
        key_occurrences(tasks, key) <= tasks.len(),
    decreases tasks.len(),
{
    if tasks.len() > 0 {
        lemma_key_occurrences_bound(tasks.drop_last(), key);
    }
}

/// A new session has no finished entry, and each progress entry counts none.
pub proof fn lemma_new_counts_nothing(status: Seq<Progress>, input: Seq<Task>, tasks: Seq<Task>)
    requires
        fresh_progress(status, input),
    ensures
        counts_finished(status, tasks, 0),
{
    assert(tasks.subrange(0, 0) =~= Seq::<Task>::empty());
}

/// When the finished entry is reported with its own task, `next` keeps the
/// progress exact: every entry then counts the finished entries of its task.
pub proof fn lemma_next_counts_finished_run(status: Seq<Progress>, tasks: Seq<Task>, curr: int)
    requires
        counts_finished(status, tasks, curr),
        0 <= curr < tasks.len() <= u64::MAX,
    ensures
        counts_finished(bumped(status, tasks[curr].key()), tasks, curr + 1),
{
    let key = tasks[curr].key();
    let b = bumped(status, key);
    assert(tasks.subrange(0, curr + 1).drop_last() =~= tasks.subrange(0, curr));
    assert forall|i: int| 0 <= i < b.len() implies (#[trigger] b[i]).done == key_occurrences(
        tasks.subrange(0, curr + 1),
        b[i].key(),
    ) by {
        lemma_key_occurrences_bound(tasks.subrange(0, curr), status[i].key());
        assert(b[i].key() == status[i].key());
    }
}


proof fn lemma_key_occurrences_concat(a: Seq<Task>, b: Seq<Task>, key: (Seq<char>, Seq<char>))
    ensures
        key_occurrences(a + b, key) == key_occurrences(a, key) + key_occurrences(b, key),
    decreases b.len(),
{
    if b.len() == 0 {
        assert(a + b =~= a);
    } else {
        lemma_key_occurrences_concat(a, b.drop_last(), key);
        assert((a + b).drop_last() =~= a + b.drop_last());
        assert((a + b).last() == b.last());
    }
}

proof fn lemma_key_occurrences_constant(n: nat, x: Task, key: (Seq<char>, Seq<char>))
    ensures
        key_occurrences(Seq::new(n, |_i: int| x), key) == if x.key() == key {
            n
        } else {
            0
        },
    decreases n,
{
    if n > 0 {
        let m = (n - 1) as nat;
        lemma_key_occurrences_constant(m, x, key);
        assert(Seq::new(n, |_i: int| x).drop_last() =~= Seq::new(m, |_i: int| x));
    }
}

proof fn lemma_key_occurrences_repeat(tasks: Seq<Task>, runs: nat, key: (Seq<char>, Seq<char>))
    ensures
        key_occurrences(repeat_each(tasks, runs), key) == runs * key_occurrences(tasks, key),
    decreases tasks.len(),
{
    if tasks.len() == 0 {
        assert(repeat_each(tasks, runs) =~= Seq::<Task>::empty());
        assert(runs * 0 == 0) by (nonlinear_arith);
    } else {
        let front = tasks.drop_last();
        let x = tasks.last();
        assert(repeat_each(tasks, runs) == repeat_each(front, runs) + Seq::new(runs, |_i: int| x));
        lemma_key_occurrences_repeat(front, runs, key);
        lemma_key_occurrences_constant(runs, x, key);
        lemma_key_occurrences_concat(repeat_each(front, runs), Seq::new(runs, |_i: int| x), key);
        let c = key_occurrences(front, key);
        if x.key() == key {
            assert(key_occurrences(tasks, key) == c + 1);
            assert(runs * c + runs == runs * (c + 1)) by (nonlinear_arith);
        } else {
            assert(key_occurrences(tasks, key) == c);
        }
    }
}

proof fn lemma_key_occurrences_remove(s: Seq<Task>, i: int, key: (Seq<char>, Seq<char>))
    requires
        0 <= i < s.len(),
    ensures
        key_occurrences(s, key) == key_occurrences(s.remove(i), key) + if s[i].key() == key {
            1nat
        } else {
            0nat
        },
{
    let a = s.subrange(0, i);
    let b = s.subrange(i + 1, s.len() as int);
    assert(s =~= a + (seq![s[i]] + b));
    assert(s.remove(i) =~= a + b);
    lemma_key_occurrences_concat(a, seq![s[i]] + b, key);
    lemma_key_occurrences_concat(seq![s[i]], b, key);
    lemma_key_occurrences_concat(a, b, key);
    assert(seq![s[i]].drop_last() =~= Seq::<Task>::empty());
    assert(key_occurrences(Seq::<Task>::empty(), key) == 0);
    assert(key_occurrences(seq![s[i]], key) == if s[i].key() == key {
        1nat
    } else {
        0nat
    });
}

proof fn lemma_key_occurrences_permutation(s: Seq<Task>, t: Seq<Task>, key: (Seq<char>, Seq<char>))
    requires
        s.to_multiset() == t.to_multiset(),
    ensures
        key_occurrences(s, key) == key_occurrences(t, key),
    decreases s.len(),
{
    broadcast use vstd::seq_lib::group_to_multiset_ensures;
    broadcast use vstd::multiset::group_multiset_axioms;

    if s.len() == 0 {
        s.to_multiset_ensures();
        t.to_multiset_ensures();
        assert(t.to_multiset().len() == s.to_multiset().len());
        assert(t.len() == 0);
        assert(t =~= Seq::<Task>::empty());
    } else {
        let x = s.last();
        assert(s =~= s.drop_last().push(x));
        assert(s.to_multiset().count(x) > 0);
        assert(t.contains(x));
        let i = choose|i: int| 0 <= i < t.len() && t[i] == x;
        assert(t.remove(i).to_multiset() =~= s.drop_last().to_multiset());
        lemma_key_occurrences_permutation(s.drop_last(), t.remove(i), key);
        lemma_key_occurrences_remove(t, i, key);
    }
}

/// At the end of a session whose finished entries were each reported with
/// their own task, every progress entry shows `runs` runs for each time its
/// task was listed: the work list holds each listed task `runs` times, in
/// whatever order.
pub proof fn lemma_finished_session_counts_runs(
    status: Seq<Progress>,
    work: Seq<Task>,
    listed: Seq<Task>,
    runs: nat,
)
    requires
        counts_finished(status, work, work.len() as int),
        work.to_multiset() == repeat_each(listed, runs).to_multiset(),
    ensures
        forall|i: int|
            0 <= i < status.len() ==> (#[trigger] status[i]).done == runs * key_occurrences(
                listed,
                status[i].key(),
            ),
{
    assert(work.subrange(0, work.len() as int) =~= work);
    assert forall|i: int| 0 <= i < status.len() implies (#[trigger] status[i]).done == runs
        * key_occurrences(listed, status[i].key()) by {
        lemma_key_occurrences_permutation(work, repeat_each(listed, runs), status[i].key());
        lemma_key_occurrences_repeat(listed, runs, status[i].key());
    }
}


/// A run session keeps exactly the runs, order and cooldown it was asked
/// for, whatever they are; a compile session runs each task once, in order,
/// without pause.
pub proof fn lemma_mode_settings_kept(runs: u64, ordered: bool, cooldown: u64)
    ensures
        mode_settings(Mode::Run { runs, ordered, cooldown }).0 == runs,
        mode_settings(Mode::Run { runs, ordered, cooldown }).1 == ordered,
        mode_settings(Mode::Run { runs, ordered, cooldown }).2 == cooldown,
        mode_settings(Mode::Compile) == (1u64, true, 0u64),
{
}

/// In run mode, every run but the first one of the work list (the last one
/// included) is preceded by a pause of `cooldown` seconds, announced as
/// `Cooling down for <cooldown> second(s)`; the first one has no pause. The
/// run is always the task at that position.
pub proof fn lemma_pause_before_every_later_run(
    pre: App,
    curr: int,
    status: Seq<Progress>,
    a: Action,
)
    requires
        pre.mode is Run,
        0 <= curr < pre.tasks.len(),
        dispatched(pre, curr, status, a),
    ensures
        a is Run,
        a->Run_task == pre.tasks@[curr],
        curr == 0 ==> a->Run_pause is None,
        curr > 0 ==> a->Run_pause is Some,
        curr > 0 ==> a->Run_pause->0.seconds == pre.cooldown,
        curr > 0 ==> a->Run_pause->0.message@ == "Cooling down for "@ + decimal(pre.cooldown as nat)
            + " second(s)"@,
{
}

} // verus!
