//! Giving several run logs one numbering of their tags.
use crate::codec::strings_view;
use crate::events::SubGraphId;
use crate::recorder::str_equal;
use crate::runlog::RunLog;
use vstd::prelude::*;

verus! {

/// `registry`, followed by each tag of `tags` it does not hold yet, in
/// order of first appearance.
pub open spec fn scanned(registry: Seq<Seq<char>>, tags: Seq<Seq<char>>) -> Seq<Seq<char>>
    decreases tags.len(),
{
    if tags.len() == 0 {
        registry
    } else {
        let r = scanned(registry, tags.drop_last());
        if r.contains(tags.last()) {
            r
        } else {
            r.push(tags.last())
        }
    }
}

/// The index of the first occurrence of `x` in `s` (-1 when `x` is absent).
pub open spec fn first_position(s: Seq<Seq<char>>, x: Seq<char>) -> int {
    if s.contains(x) {
        choose|k: int| 0 <= k < s.len() && s[k] == x && forall|j: int| 0 <= j < k ==> s[j] != x
    } else {
        -1
    }
}

/// The first position of a tag that a registry holds is where it is.
pub proof fn lemma_first_position(s: Seq<Seq<char>>, x: Seq<char>)
    requires
        s.contains(x),
    ensures
        0 <= first_position(s, x) < s.len(),
        s[first_position(s, x)] == x,
        forall|j: int| 0 <= j < first_position(s, x) ==> s[j] != x,
{
    let k = lemma_min_index(s, x);
    let c = first_position(s, x);
    if c < k {
        assert(s[c] != x);
    } else if c > k {
        assert(s[k] != x);
    }
}

proof fn lemma_min_index(s: Seq<Seq<char>>, x: Seq<char>) -> (k: int)
    requires
        s.contains(x),
    ensures
        0 <= k < s.len(),
        s[k] == x,
        forall|j: int| 0 <= j < k ==> s[j] != x,
    decreases s.len(),
{
    if s[0] == x {
        0
    } else {
        let w = choose|w: int| 0 <= w < s.len() && s[w] == x;
        assert(s.drop_first()[w - 1] == x);
        let k = lemma_min_index(s.drop_first(), x);
        assert forall|j: int| 0 <= j < k + 1 implies s[j] != x by {
            if j > 0 {
                assert(s[j] == s.drop_first()[j - 1]);
            }
        }
        k + 1
    }
}

/// A scan keeps what the registry held and adds exactly the missing tags.
pub proof fn lemma_scanned_contains(registry: Seq<Seq<char>>, tags: Seq<Seq<char>>, x: Seq<char>)
    ensures
        scanned(registry, tags).contains(x) <==> (registry.contains(x) || tags.contains(x)),
        registry.is_prefix_of(scanned(registry, tags)),
    decreases tags.len(),
{
    if tags.len() > 0 {
        let r = scanned(registry, tags.drop_last());
        lemma_scanned_contains(registry, tags.drop_last(), x);
        lemma_scanned_contains(registry, tags.drop_last(), tags.last());
        assert(tags == tags.drop_last().push(tags.last()));
        if tags.contains(x) && !tags.drop_last().contains(x) {
            let k = choose|k: int| 0 <= k < tags.len() && tags[k] == x;
            if k < tags.len() - 1 {
                assert(tags.drop_last()[k] == x);
            }
        }
        if tags.drop_last().contains(x) {
            let k = choose|k: int| 0 <= k < tags.drop_last().len() && tags.drop_last()[k] == x;
            assert(tags[k] == x);
        }
        if !r.contains(tags.last()) {
            let r2 = r.push(tags.last());
            if r.contains(x) {
                let k = choose|k: int| 0 <= k < r.len() && r[k] == x;
                assert(r2[k] == x);
            }
            if r2.contains(x) && x != tags.last() {
                let k = choose|k: int| 0 <= k < r2.len() && r2[k] == x;
                assert(r[k] == x);
            }
            assert(r2[r.len() as int] == tags.last());
        }
    }
}

/// `new` is `old` with its tags renumbered along `registry`: the same tasks,
/// each subgraph tagged with the index in `registry` of its former tag, and
/// `registry` as list of tags.
pub open spec fn renumbered(old: RunLog, new: RunLog, registry: Seq<Seq<char>>) -> bool {
    &&& strings_view(new.tags@) == registry
    &&& new.subgraphs@.len() == old.subgraphs@.len()
    &&& forall|g: int|
        0 <= g < new.subgraphs@.len() ==> #[trigger] new.subgraphs@[g] == (
            old.subgraphs@[g].0,
            old.subgraphs@[g].1,
            first_position(registry, strings_view(old.tags@)[old.subgraphs@[g].2 as int]) as SubGraphId,
            old.subgraphs@[g].3,
        )
    &&& new.tasks_logs@ == old.tasks_logs@
    &&& new.threads_number == old.threads_number
    &&& new.duration == old.duration
}

/// Every subgraph of `log` refers to one of its tags.
pub open spec fn tags_consistent(log: RunLog) -> bool {
    forall|g: int| 0 <= g < log.subgraphs@.len() ==> (#[trigger] log.subgraphs@[g]).2 < log.tags@.len()
}

/// `registry` holds every tag of `log`.
pub open spec fn covers(registry: Seq<Seq<char>>, log: RunLog) -> bool {
    forall|t: int| 0 <= t < log.tags@.len() ==> registry.contains(#[trigger] strings_view(log.tags@)[t])
}

/// The registry obtained by scanning `runs` in order.
pub open spec fn scan_runs(registry: Seq<Seq<char>>, runs: Seq<RunLog>) -> Seq<Seq<char>>
    decreases runs.len(),
{
    if runs.len() == 0 {
        registry
    } else {
        scanned(scan_runs(registry, runs.drop_last()), strings_view(runs.last().tags@))
    }
}

/// The registry obtained by scanning the runs of each experiment in order.
pub open spec fn scan_experiments(registry: Seq<Seq<char>>, experiments: Seq<Vec<RunLog>>) -> Seq<Seq<char>>
    decreases experiments.len(),
{
    if experiments.len() == 0 {
        registry
    } else {
        scan_runs(scan_experiments(registry, experiments.drop_last()), experiments.last()@)
    }
}

/// A registry that covers a log still does after a scan.
proof fn lemma_covers_scanned(registry: Seq<Seq<char>>, tags: Seq<Seq<char>>, log: RunLog)
    requires
        covers(registry, log),
    ensures
        covers(scanned(registry, tags), log),
{
    assert forall|t: int| 0 <= t < log.tags@.len() implies scanned(registry, tags).contains(
        #[trigger] strings_view(log.tags@)[t],
    ) by {
        lemma_scanned_contains(registry, tags, strings_view(log.tags@)[t]);
    }
}

/// Scanning the tags of a log covers it.
proof fn lemma_scan_covers(registry: Seq<Seq<char>>, log: RunLog)
    ensures
        covers(scanned(registry, strings_view(log.tags@)), log),
{
    assert forall|t: int| 0 <= t < log.tags@.len() implies scanned(registry, strings_view(log.tags@)).contains(
        #[trigger] strings_view(log.tags@)[t],
    ) by {
        lemma_scanned_contains(registry, strings_view(log.tags@), strings_view(log.tags@)[t]);
    }
}

/// Scanning never adds a tag twice.
pub proof fn lemma_scanned_no_duplicates(registry: Seq<Seq<char>>, tags: Seq<Seq<char>>)
    requires
        registry.no_duplicates(),
    ensures
        scanned(registry, tags).no_duplicates(),
    decreases tags.len(),
{
    if tags.len() > 0 {
        lemma_scanned_no_duplicates(registry, tags.drop_last());
        let r = scanned(registry, tags.drop_last());
        if !r.contains(tags.last()) {
            let r2 = r.push(tags.last());
            assert forall|a: int, b: int| 0 <= a < r2.len() && 0 <= b < r2.len() && a != b implies r2[a]
                != r2[b] by {
                if a == r.len() {
                    assert(r[b] == r2[b]);
                } else if b == r.len() {
                    assert(r[a] == r2[a]);
                }
            }
        }
    }
}

/// Whether `registry` holds `tag`.
fn holds_tag(registry: &Vec<String>, tag: &String) -> (r: bool)
    ensures
        r == strings_view(registry@).contains(tag@),
{
    let mut i: usize = 0;
    while i < registry.len()
        invariant
            i <= registry@.len(),
            forall|j: int| 0 <= j < i ==> registry@[j]@ != tag@,
        decreases registry@.len() - i,
    {
        if str_equal(registry[i].as_str(), tag.as_str()) {
            assert(strings_view(registry@)[i as int] == tag@);
            return true;
        }
        i = i + 1;
    }
    proof {
        if strings_view(registry@).contains(tag@) {
            let k = choose|k: int| 0 <= k < registry@.len() && strings_view(registry@)[k] == tag@;
            assert(registry@[k]@ == tag@);
        }
    }
    false
}

/// The index of the first tag of `registry` equal to `tag`.
fn position_of(registry: &Vec<String>, tag: &String) -> (k: usize)
    requires
        strings_view(registry@).contains(tag@),
    ensures
        k == first_position(strings_view(registry@), tag@),
        k < registry@.len(),
{
    let ghost s = strings_view(registry@);
    let mut i: usize = 0;
    while i < registry.len()
        invariant
            i <= registry@.len(),
            s == strings_view(registry@),
            s.contains(tag@),
            forall|j: int| 0 <= j < i ==> s[j] != tag@,
        decreases registry@.len() - i,
    {
        if str_equal(registry[i].as_str(), tag.as_str()) {
            proof {
                assert(s[i as int] == tag@);
                let c = choose|k: int| 0 <= k < s.len() && s[k] == tag@ && forall|j: int| 0 <= j < k ==> s[j] != tag@;
                if c < i {
                    assert(s[c] != tag@);
                } else if c > i {
                    assert(s[i as int] != tag@);
                }
            }
            return i;
        }
        i = i + 1;
    }
    proof {
        let k = choose|k: int| 0 <= k < s.len() && s[k] == tag@;
        assert(s[k] != tag@);
    }
    0
}

impl RunLog {
    /// Add to `registry` each of our tags it does not hold yet, in order.
    pub fn scan_tags(&self, registry: &mut Vec<String>)
        ensures
            strings_view(final(registry)@) == scanned(strings_view(old(registry)@), strings_view(self.tags@)),
    {
        let ghost start = strings_view(registry@);
        let mut i: usize = 0;
        while i < self.tags.len()
            invariant
                i <= self.tags@.len(),
                strings_view(registry@) == scanned(start, strings_view(self.tags@).take(i as int)),
            decreases self.tags@.len() - i,
        {
            let ghost before = strings_view(registry@);
            assert(strings_view(self.tags@).take(i + 1).drop_last() == strings_view(self.tags@).take(i as int));
            let tag = &self.tags[i];
            if !holds_tag(registry, tag) {
                registry.push(tag.clone());
                assert(strings_view(registry@) == before.push(tag@));
            }
            i = i + 1;
        }
        assert(strings_view(self.tags@).take(self.tags@.len() as int) == strings_view(self.tags@));
    }

    /// Renumber our tags along `registry`: each subgraph gets the index in
    /// `registry` of its tag, and `registry` becomes our list of tags.
    pub fn update_tags(&mut self, registry: &Vec<String>)
        requires
            forall|g: int|
                0 <= g < old(self).subgraphs@.len() ==> (#[trigger] old(self).subgraphs@[g]).2
                    < old(self).tags@.len(),
            forall|t: int|
                0 <= t < old(self).tags@.len() ==> strings_view(registry@).contains(
                    #[trigger] strings_view(old(self).tags@)[t],
                ),
        ensures
            renumbered(*old(self), *final(self), strings_view(registry@)),
    {
        let ghost old_subgraphs = self.subgraphs@;
        let ghost old_tags = strings_view(self.tags@);
        let ghost old_tasks = self.tasks_logs@;
        let ghost old_threads = self.threads_number;
        let ghost old_duration = self.duration;
        let m = self.subgraphs.len();
        let mut i: usize = 0;
        while i < m
            invariant
                i <= m,
                m == self.subgraphs@.len(),
                old_tags == strings_view(self.tags@),
                old_tasks == self.tasks_logs@,
                old_threads == self.threads_number,
                old_duration == self.duration,
                old_subgraphs.len() == m,
                forall|g: int| 0 <= g < m ==> (#[trigger] old_subgraphs[g]).2 < old_tags.len(),
                forall|t: int| 0 <= t < old_tags.len() ==> strings_view(registry@).contains(#[trigger] old_tags[t]),
                forall|g: int| i <= g < m ==> #[trigger] self.subgraphs@[g] == old_subgraphs[g],
                forall|g: int|
                    0 <= g < i ==> #[trigger] self.subgraphs@[g] == (
                        old_subgraphs[g].0,
                        old_subgraphs[g].1,
                        first_position(strings_view(registry@), old_tags[old_subgraphs[g].2 as int]) as SubGraphId,
                        old_subgraphs[g].3,
                    ),
            decreases m - i,
        {
            let g = self.subgraphs[i];
            assert(g == old_subgraphs[i as int]);
            assert(old_tags[g.2 as int] == self.tags@[g.2 as int]@);
            let k = position_of(registry, &self.tags[g.2]);
            self.subgraphs.set(i, (g.0, g.1, k, g.3));
            i = i + 1;
        }
        self.tags = registry.clone();
        assert(strings_view(self.tags@) == strings_view(registry@)) by {
            assert(self.tags@ == registry@);
        }
    }
}

} // verus!

verus! {

/// Give all logs one numbering of their tags: scan the tags of every log
/// (experiment after experiment, run after run) into one registry, renumber
/// every log along it, and return it.
pub fn fuse_tags(logs: &mut Vec<Vec<RunLog>>) -> (tags: Vec<String>)
    requires
        forall|i: int, j: int|
            0 <= i < old(logs)@.len() && 0 <= j < old(logs)@[i]@.len() ==> tags_consistent(
                #[trigger] old(logs)@[i]@[j],
            ),
    ensures
        strings_view(tags@) == scan_experiments(Seq::empty(), old(logs)@),
        final(logs)@.len() == old(logs)@.len(),
        forall|i: int| 0 <= i < final(logs)@.len() ==> (#[trigger] final(logs)@[i])@.len() == old(logs)@[i]@.len(),
        forall|i: int, j: int|
            0 <= i < final(logs)@.len() && 0 <= j < final(logs)@[i]@.len() ==> renumbered(
                old(logs)@[i]@[j],
                #[trigger] final(logs)@[i]@[j],
                strings_view(tags@),
            ),
        strings_view(tags@).no_duplicates(),
        forall|i: int, j: int, g: int|
            0 <= i < final(logs)@.len() && 0 <= j < final(logs)@[i]@.len() && 0 <= g
                < final(logs)@[i]@[j].subgraphs@.len() ==> strings_view(final(logs)@[i]@[j].tags@)[(
            #[trigger] final(logs)@[i]@[j].subgraphs@[g]).2 as int] == strings_view(old(logs)@[i]@[j].tags@)[old(
            logs,
        )@[i]@[j].subgraphs@[g].2 as int],
{
    let ghost experiments = logs@;
    let mut registry: Vec<String> = Vec::new();
    let n = logs.len();
    let mut i: usize = 0;
    while i < n
        invariant
            i <= n,
            n == logs@.len(),
            logs@ == experiments,
            strings_view(registry@) == scan_experiments(Seq::empty(), experiments.take(i as int)),
            forall|a: int, b: int|
                0 <= a < i && 0 <= b < experiments[a]@.len() ==> covers(
                    strings_view(registry@),
                    #[trigger] experiments[a]@[b],
                ),
        decreases n - i,
    {
        let ghost start = strings_view(registry@);
        let runs = &logs[i];
        let mut j: usize = 0;
        while j < runs.len()
            invariant
                j <= runs@.len(),
                i < n,
                n == logs@.len(),
                logs@ == experiments,
                *runs == experiments[i as int],
                strings_view(registry@) == scan_runs(start, runs@.take(j as int)),
                forall|a: int, b: int|
                    0 <= a < i && 0 <= b < experiments[a]@.len() ==> covers(
                        strings_view(registry@),
                        #[trigger] experiments[a]@[b],
                    ),
                forall|b: int| 0 <= b < j ==> covers(strings_view(registry@), #[trigger] runs@[b]),
            decreases runs@.len() - j,
        {
            let ghost before = strings_view(registry@);
            runs[j].scan_tags(&mut registry);
            proof {
                assert(runs@.take(j + 1).drop_last() == runs@.take(j as int));
                let log_tags = strings_view(runs@[j as int].tags@);
                assert forall|a: int, b: int|
                    0 <= a < i && 0 <= b < experiments[a]@.len() implies covers(
                    strings_view(registry@),
                    #[trigger] experiments[a]@[b],
                ) by {
                    lemma_covers_scanned(before, log_tags, experiments[a]@[b]);
                }
                assert forall|b: int| 0 <= b < j + 1 implies covers(strings_view(registry@), #[trigger] runs@[b]) by {
                    if b < j {
                        lemma_covers_scanned(before, log_tags, runs@[b]);
                    } else {
                        lemma_scan_covers(before, runs@[b]);
                    }
                }
            }
            j = j + 1;
        }
        proof {
            assert(runs@.take(runs@.len() as int) == runs@);
            assert(experiments.take(i + 1).drop_last() == experiments.take(i as int));
            assert(experiments.take(i + 1).last() == experiments[i as int]);
        }
        i = i + 1;
    }
    proof {
        assert(experiments.take(n as int) == experiments);
    }
    let ghost reg = strings_view(registry@);
    let mut i: usize = 0;
    while i < n
        invariant
            i <= n,
            n == logs@.len(),
            n == experiments.len(),
            reg == strings_view(registry@),
            forall|a: int, b: int|
                0 <= a < n && 0 <= b < experiments[a]@.len() ==> covers(reg, #[trigger] experiments[a]@[b]),
            forall|a: int, b: int|
                0 <= a < n && 0 <= b < experiments[a]@.len() ==> tags_consistent(#[trigger] experiments[a]@[b]),
            forall|a: int| i <= a < n ==> #[trigger] logs@[a] == experiments[a],
            forall|a: int| 0 <= a < i ==> (#[trigger] logs@[a])@.len() == experiments[a]@.len(),
            forall|a: int, b: int|
                0 <= a < i && 0 <= b < logs@[a]@.len() ==> renumbered(
                    experiments[a]@[b],
                    #[trigger] logs@[a]@[b],
                    reg,
                ),
            forall|a: int, b: int, g: int|
                0 <= a < i && 0 <= b < logs@[a]@.len() && 0 <= g < logs@[a]@[b].subgraphs@.len() ==> strings_view(
                    logs@[a]@[b].tags@,
                )[(#[trigger] logs@[a]@[b].subgraphs@[g]).2 as int] == strings_view(experiments[a]@[b].tags@)[experiments[a]@[b].subgraphs@[g].2 as int],
        decreases n - i,
    {
        let mut runs: Vec<RunLog> = Vec::new();
        std::mem::swap(&mut runs, &mut logs[i]);
        let ghost taken = logs@;
        let m = runs.len();
        let mut j: usize = 0;
        while j < m
            invariant
                j <= m,
                m == runs@.len(),
                m == experiments[i as int]@.len(),
                i < n,
                reg == strings_view(registry@),
                forall|b: int| 0 <= b < m ==> covers(reg, #[trigger] experiments[i as int]@[b]),
                forall|b: int| 0 <= b < m ==> tags_consistent(#[trigger] experiments[i as int]@[b]),
                forall|b: int| j <= b < m ==> #[trigger] runs@[b] == experiments[i as int]@[b],
                forall|b: int| 0 <= b < j ==> renumbered(experiments[i as int]@[b], #[trigger] runs@[b], reg),
            decreases m - j,
        {
            let mut log = runs.remove(j);
            assert(log == experiments[i as int]@[j as int]);
            proof {
                let l = experiments[i as int]@[j as int];
                assert(covers(reg, l));
                assert(tags_consistent(l));
            }
            log.update_tags(&registry);
            runs.insert(j, log);
            j = j + 1;
        }
        std::mem::swap(&mut runs, &mut logs[i]);
        proof {
            assert forall|b: int, g: int|
                0 <= b < logs@[i as int]@.len() && 0 <= g < logs@[i as int]@[b].subgraphs@.len() implies strings_view(
                logs@[i as int]@[b].tags@,
            )[(#[trigger] logs@[i as int]@[b].subgraphs@[g]).2 as int] == strings_view(
                experiments[i as int]@[b].tags@,
            )[experiments[i as int]@[b].subgraphs@[g].2 as int] by {
                lemma_renumbering_keeps_tags(experiments[i as int]@[b], logs@[i as int]@[b], reg);
            }
            assert forall|a: int| i + 1 <= a < n implies #[trigger] logs@[a] == experiments[a] by {
                assert(logs@[a] == taken[a]);
            }
        }
        i = i + 1;
    }
    proof {
        lemma_fused_tags_distinct(experiments);
    }
    registry
}

} // verus!

verus! {

/// Renumbering keeps the tag of every subgraph: the tag that a subgraph
/// refers to after the renumbering is the one it referred to before, as
/// long as the registry holds all the log's tags.
pub proof fn lemma_renumbering_keeps_tags(old: RunLog, new: RunLog, registry: Seq<Seq<char>>)
    requires
        renumbered(old, new, registry),
        tags_consistent(old),
        covers(registry, old),
    ensures
        tags_consistent(new),
        forall|g: int|
            0 <= g < new.subgraphs@.len() ==> strings_view(new.tags@)[(#[trigger] new.subgraphs@[g]).2 as int]
                == strings_view(old.tags@)[old.subgraphs@[g].2 as int],
{
    assert forall|g: int| 0 <= g < new.subgraphs@.len() implies (#[trigger] new.subgraphs@[g]).2 < new.tags@.len()
        && strings_view(new.tags@)[new.subgraphs@[g].2 as int] == strings_view(old.tags@)[old.subgraphs@[g].2 as int] by {
        let x = strings_view(old.tags@)[old.subgraphs@[g].2 as int];
        assert(old.subgraphs@[g].2 < old.tags@.len());
        assert(registry.contains(x));
        lemma_first_position(registry, x);
        let k = first_position(registry, x);
        assert(strings_view(new.tags@).len() == new.tags@.len());
        assert(new.subgraphs@[g].2 == k as SubGraphId);
        assert(registry.len() == new.tags@.len());
        assert(new.tags.len() == new.tags@.len());
        assert(new.subgraphs@[g].2 as int == k);
        assert(strings_view(new.tags@)[k] == x);
    }
}

/// A registry filled by scans from nothing holds no tag twice.
pub proof fn lemma_fused_tags_distinct(experiments: Seq<Vec<RunLog>>)
    ensures
        scan_experiments(Seq::empty(), experiments).no_duplicates(),
    decreases experiments.len(),
{
    if experiments.len() > 0 {
        lemma_fused_tags_distinct(experiments.drop_last());
        lemma_scan_runs_distinct(scan_experiments(Seq::empty(), experiments.drop_last()), experiments.last()@);
    }
}

proof fn lemma_scan_runs_distinct(registry: Seq<Seq<char>>, runs: Seq<RunLog>)
    requires
        registry.no_duplicates(),
    ensures
        scan_runs(registry, runs).no_duplicates(),
    decreases runs.len(),
{
    if runs.len() > 0 {
        lemma_scan_runs_distinct(registry, runs.drop_last());
        lemma_scanned_no_duplicates(scan_runs(registry, runs.drop_last()), strings_view(runs.last().tags@));
    }
}

} // verus!
