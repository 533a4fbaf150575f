//! Gathering what the threads recorded into raw logs, with each subgraph
//! label replaced by its index in the list of labels.
use crate::codec::{strings_view, threads_view, RawLogs};
use crate::events::{RawEvent, SubGraphId};
use crate::storage::Storage;
use vstd::prelude::*;
use vstd::utf8::{encode_utf8, encode_utf8_decode_utf8};

verus! {

/// Whether two strings are equal, compared byte by byte.
pub fn str_equal(a: &str, b: &str) -> (r: bool)
    ensures
        r == (a@ == b@),
{
    let x = a.as_bytes();
    let y = b.as_bytes();
    proof {
        encode_utf8_decode_utf8(a@);
        encode_utf8_decode_utf8(b@);
        assert(x@ == encode_utf8(a@));
        assert(y@ == encode_utf8(b@));
    }
    if x.len() != y.len() {
        return false;
    }
    let mut i: usize = 0;
    while i < x.len()
        invariant
            x@ == encode_utf8(a@),
            y@ == encode_utf8(b@),
            x@.len() == y@.len(),
            i <= x@.len(),
            forall|j: int| 0 <= j < i ==> x@[j] == y@[j],
        decreases x@.len() - i,
    {
        if x[i] != y[i] {
            return false;
        }
        i = i + 1;
    }
    assert(x@ =~= y@);
    true
}

/// `a` is a prefix of `b`.
pub open spec fn is_prefix<T>(a: Seq<T>, b: Seq<T>) -> bool {
    a.len() <= b.len() && b.subrange(0, a.len() as int) == a
}

/// The label carried by a subgraph event.
pub open spec fn event_label(e: RawEvent<&'static str>) -> Option<Seq<char>> {
    match e {
        RawEvent::SubgraphStart(label) => Some(label@),
        RawEvent::SubgraphEnd(label, _) => Some(label@),
        _ => None,
    }
}

/// Labels of the subgraph events of `evs`, in order.
pub open spec fn labels_in(evs: Seq<RawEvent<&'static str>>) -> Seq<Seq<char>>
    decreases evs.len(),
{
    if evs.len() == 0 {
        Seq::empty()
    } else {
        match event_label(evs.last()) {
            Some(l) => labels_in(evs.drop_last()).push(l),
            None => labels_in(evs.drop_last()),
        }
    }
}

/// Distinct values of `s`, in the order of their first occurrence.
pub open spec fn first_occurrences(s: Seq<Seq<char>>) -> Seq<Seq<char>>
    decreases s.len(),
{
    if s.len() == 0 {
        Seq::empty()
    } else {
        let d = first_occurrences(s.drop_last());
        if d.contains(s.last()) {
            d
        } else {
            d.push(s.last())
        }
    }
}

/// What each thread recorded.
pub open spec fn recorded_view(threads: Seq<&Storage<RawEvent<&'static str>>>) -> Seq<
    Seq<RawEvent<&'static str>>,
> {
    threads.map_values(|s: &Storage<RawEvent<&'static str>>| s@)
}

/// Labels numbered in the order in which they first appear, threads taken
/// one after the other.
pub open spec fn recorded_labels(views: Seq<Seq<RawEvent<&'static str>>>) -> Seq<Seq<char>> {
    first_occurrences(labels_in(views.flatten_alt()))
}

/// An event with its label replaced by the label's index.
pub open spec fn intern(e: RawEvent<&'static str>, labels: Seq<Seq<char>>) -> RawEvent<SubGraphId> {
    match e {
        RawEvent::TaskStart(id, time) => RawEvent::TaskStart(id, time),
        RawEvent::TaskEnd(time) => RawEvent::TaskEnd(time),
        RawEvent::Child(id) => RawEvent::Child(id),
        RawEvent::SubgraphStart(label) => RawEvent::SubgraphStart(labels.index_of(label@) as usize),
        RawEvent::SubgraphEnd(label, size) => RawEvent::SubgraphEnd(
            labels.index_of(label@) as usize,
            size,
        ),
    }
}

/// The events of each of the first `threads_number` threads, interned;
/// threads that recorded nothing get no events.
pub open spec fn interned_threads(
    views: Seq<Seq<RawEvent<&'static str>>>,
    labels: Seq<Seq<char>>,
    threads_number: nat,
) -> Seq<Seq<RawEvent<SubGraphId>>> {
    Seq::new(
        threads_number,
        |t: int|
            if t < views.len() {
                views[t].map_values(|e: RawEvent<&'static str>| intern(e, labels))
            } else {
                Seq::empty()
            },
    )
}

pub open spec fn str_views(s: Seq<&'static str>) -> Seq<Seq<char>> {
    s.map_values(|l: &'static str| l@)
}

proof fn lemma_prefix_trans<T>(a: Seq<T>, b: Seq<T>, c: Seq<T>)
    requires
        is_prefix(a, b),
        is_prefix(b, c),
    ensures
        is_prefix(a, c),
{
    assert(c.subrange(0, a.len() as int) =~= b.subrange(0, a.len() as int));
}

/// Labels of a prefix are a prefix of the labels.
proof fn lemma_labels_in_prefix(a: Seq<RawEvent<&'static str>>, b: Seq<RawEvent<&'static str>>)
    requires
        is_prefix(a, b),
    ensures
        is_prefix(labels_in(a), labels_in(b)),
    decreases b.len(),
{
    if a.len() == b.len() {
        assert(a =~= b);
        assert(labels_in(b).subrange(0, labels_in(b).len() as int) =~= labels_in(b));
    } else {
        assert(is_prefix(a, b.drop_last())) by {
            assert(b.drop_last().subrange(0, a.len() as int) =~= b.subrange(0, a.len() as int));
        }
        lemma_labels_in_prefix(a, b.drop_last());
        assert(is_prefix(labels_in(b.drop_last()), labels_in(b))) by {
            assert(labels_in(b).subrange(0, labels_in(b.drop_last()).len() as int) =~= labels_in(
                b.drop_last(),
            ));
        }
        lemma_prefix_trans(labels_in(a), labels_in(b.drop_last()), labels_in(b));
    }
}

/// First occurrences in a prefix are a prefix of the first occurrences.
proof fn lemma_first_occurrences_prefix(a: Seq<Seq<char>>, b: Seq<Seq<char>>)
    requires
        is_prefix(a, b),
    ensures
        is_prefix(first_occurrences(a), first_occurrences(b)),
    decreases b.len(),
{
    if a.len() == b.len() {
        assert(a =~= b);
        assert(first_occurrences(b).subrange(0, first_occurrences(b).len() as int) =~= first_occurrences(b));
    } else {
        assert(is_prefix(a, b.drop_last())) by {
            assert(b.drop_last().subrange(0, a.len() as int) =~= b.subrange(0, a.len() as int));
        }
        lemma_first_occurrences_prefix(a, b.drop_last());
        let d = first_occurrences(b.drop_last());
        assert(is_prefix(d, first_occurrences(b))) by {
            assert(first_occurrences(b).subrange(0, d.len() as int) =~= d);
        }
        lemma_prefix_trans(first_occurrences(a), d, first_occurrences(b));
    }
}

/// First occurrences hold no value twice.
proof fn lemma_first_occurrences_distinct(s: Seq<Seq<char>>)
    ensures
        first_occurrences(s).no_duplicates(),
    decreases s.len(),
{
    if s.len() > 0 {
        lemma_first_occurrences_distinct(s.drop_last());
    }
}

/// The threads before `t`, then the first `i` events of thread `t`, are a
/// prefix of all events.
proof fn lemma_scan_prefix(views: Seq<Seq<RawEvent<&'static str>>>, t: int, i: int)
    requires
        0 <= t < views.len(),
        0 <= i <= views[t].len(),
    ensures
        is_prefix(views.take(t).flatten_alt() + views[t].take(i), views.flatten_alt()),
    decreases views.len() - t,
{
    assert(views.take(t + 1).drop_last() =~= views.take(t));
    let next = views.take(t + 1).flatten_alt();
    assert(next == views.take(t).flatten_alt() + views[t]);
    assert(is_prefix(views.take(t).flatten_alt() + views[t].take(i), next)) by {
        assert(next.subrange(0, views.take(t).flatten_alt().len() + i) =~= views.take(
            t,
        ).flatten_alt() + views[t].take(i));
    }
    if t + 1 < views.len() {
        lemma_scan_prefix(views, t + 1, 0);
        assert(views[t + 1].take(0) =~= Seq::<RawEvent<&'static str>>::empty());
        assert(views.take(t + 1).flatten_alt() + views[t + 1].take(0) =~= next);
        lemma_prefix_trans(
            views.take(t).flatten_alt() + views[t].take(i),
            next,
            views.flatten_alt(),
        );
    } else {
        assert(views.take(t + 1) =~= views);
    }
}

/// Index of `label` in `seen`, which gets it appended if it is new.
fn intern_label(seen: &mut Vec<&'static str>, label: &'static str) -> (k: usize)
    ensures
        str_views(final(seen)@) == if str_views(old(seen)@).contains(label@) {
            str_views(old(seen)@)
        } else {
            str_views(old(seen)@).push(label@)
        },
        k < final(seen)@.len(),
        str_views(final(seen)@)[k as int] == label@,
{
    let mut k: usize = 0;
    while k < seen.len()
        invariant
            k <= seen@.len(),
            seen@ == old(seen)@,
            forall|j: int| 0 <= j < k ==> seen@[j]@ != label@,
        decreases seen@.len() - k,
    {
        if str_equal(seen[k], label) {
            proof {
                assert(str_views(seen@).contains(label@)) by {
                    assert(str_views(seen@)[k as int] == label@);
                }
            }
            return k;
        }
        k = k + 1;
    }
    proof {
        assert(!str_views(seen@).contains(label@)) by {
            if str_views(seen@).contains(label@) {
                let j = choose|j: int| 0 <= j < str_views(seen@).len() && str_views(seen@)[j] == label@;
                assert(seen@[j]@ == label@);
            }
        }
    }
    seen.push(label);
    assert(str_views(seen@) =~= str_views(old(seen)@).push(label@));
    k
}

/// Where a label is found in a list without repetitions, that is its index.
proof fn lemma_index_of_distinct(s: Seq<Seq<char>>, k: int, x: Seq<char>)
    requires
        s.no_duplicates(),
        0 <= k < s.len(),
        s[k] == x,
    ensures
        s.index_of(x) == k,
{
    assert(s[k] == x);
    let j = s.index_of(x);
    assert(0 <= j < s.len() && s[j] == x);
}

impl RawLogs {
    /// Gather the events recorded by each thread (`threads[t]` is what
    /// thread `t` recorded) into raw logs for `threads_number` threads:
    /// labels are numbered in the order in which they first appear.
    pub fn new(threads: &Vec<&Storage<RawEvent<&'static str>>>, threads_number: usize) -> (logs:
        RawLogs)
        ensures
            logs@.labels == recorded_labels(recorded_view(threads@)),
            logs@.thread_events == interned_threads(
                recorded_view(threads@),
                recorded_labels(recorded_view(threads@)),
                threads_number as nat,
            ),
    {
        let ghost views = recorded_view(threads@);
        let ghost all = views.flatten_alt();
        let ghost final_labels = recorded_labels(views);
        proof {
            lemma_first_occurrences_distinct(labels_in(all));
        }
        let mut seen: Vec<&'static str> = Vec::new();
        let mut thread_events: Vec<Vec<RawEvent<SubGraphId>>> = Vec::new();
        let mut t: usize = 0;
        while t < threads.len()
            invariant
                t <= threads@.len(),
                views == recorded_view(threads@),
                all == views.flatten_alt(),
                final_labels == recorded_labels(views),
                final_labels.no_duplicates(),
                str_views(seen@) == first_occurrences(labels_in(views.take(t as int).flatten_alt())),
                thread_events@.len() == if t <= threads_number { t as nat } else { threads_number as nat },
                forall|k: int|
                    0 <= k < thread_events@.len() ==> (#[trigger] thread_events@[k])@ == views[k].map_values(
                        |e: RawEvent<&'static str>| intern(e, final_labels),
                    ),
            decreases threads@.len() - t,
        {
            let events = threads[t].iter();
            let ghost thread = views[t as int];
            assert(thread == threads@[t as int]@);
            let mut converted: Vec<RawEvent<SubGraphId>> = Vec::new();
            let mut i: usize = 0;
            while i < events.len()
                invariant
                    t < threads@.len(),
                    i <= events@.len(),
                    events@.len() == thread.len(),
                    forall|j: int| 0 <= j < events@.len() ==> *events@[j] == thread[j],
                    thread == views[t as int],
                    views == recorded_view(threads@),
                    all == views.flatten_alt(),
                    final_labels == recorded_labels(views),
                    final_labels.no_duplicates(),
                    str_views(seen@) == first_occurrences(
                        labels_in(views.take(t as int).flatten_alt() + thread.take(i as int)),
                    ),
                    converted@ == thread.take(i as int).map_values(
                        |e: RawEvent<&'static str>| intern(e, final_labels),
                    ),
                decreases events@.len() - i,
            {
                let e = *events[i];
                let ghost prev = views.take(t as int).flatten_alt() + thread.take(i as int);
                let ghost next = views.take(t as int).flatten_alt() + thread.take(i + 1);
                assert(next =~= prev.push(e));
                assert(next.drop_last() =~= prev);
                let c = match e {
                    RawEvent::SubgraphStart(label) => {
                        let k = intern_label(&mut seen, label);
                        RawEvent::SubgraphStart(k)
                    },
                    RawEvent::SubgraphEnd(label, size) => {
                        let k = intern_label(&mut seen, label);
                        RawEvent::SubgraphEnd(k, size)
                    },
                    RawEvent::TaskStart(id, time) => RawEvent::TaskStart(id, time),
                    RawEvent::TaskEnd(time) => RawEvent::TaskEnd(time),
                    RawEvent::Child(id) => RawEvent::Child(id),
                };
                proof {
                    assert(next.last() == e);
                    match event_label(e) {
                        Some(l) => {
                            let ls = labels_in(prev).push(l);
                            assert(labels_in(next) == ls);
                            assert(ls.drop_last() =~= labels_in(prev));
                            assert(ls.last() == l);
                        },
                        None => {
                            assert(labels_in(next) == labels_in(prev));
                        },
                    }
                    assert(str_views(seen@) == first_occurrences(labels_in(next)));
                    lemma_scan_prefix(views, t as int, i + 1);
                    lemma_labels_in_prefix(next, all);
                    lemma_first_occurrences_prefix(labels_in(next), labels_in(all));
                    match e {
                        RawEvent::SubgraphStart(label) => {
                            let k = c->SubgraphStart_0;
                            assert(final_labels[k as int] == label@);
                            lemma_index_of_distinct(final_labels, k as int, label@);
                        },
                        RawEvent::SubgraphEnd(label, size) => {
                            let k = c->SubgraphEnd_0;
                            assert(final_labels[k as int] == label@);
                            lemma_index_of_distinct(final_labels, k as int, label@);
                        },
                        _ => {},
                    }
                    assert(c == intern(e, final_labels));
                }
                converted.push(c);
                proof {
                    assert(thread.take(i + 1) =~= thread.take(i as int).push(e));
                    assert(converted@ =~= thread.take(i + 1).map_values(
                        |e: RawEvent<&'static str>| intern(e, final_labels),
                    ));
                }
                i = i + 1;
            }
            proof {
                assert(thread.take(events@.len() as int) =~= thread);
                assert(views.take(t + 1).drop_last() =~= views.take(t as int));
                assert(converted@ =~= thread.map_values(
                    |e: RawEvent<&'static str>| intern(e, final_labels),
                ));
            }
            if t < threads_number {
                thread_events.push(converted);
            }
            t = t + 1;
        }
        while thread_events.len() < threads_number
            invariant
                thread_events@.len() <= threads_number,
                views.len() == threads@.len(),
                thread_events@.len() >= threads@.len() || thread_events@.len() == threads_number,
                forall|k: int|
                    0 <= k < thread_events@.len() ==> (#[trigger] thread_events@[k])@ == (if k
                        < views.len() {
                        views[k].map_values(|e: RawEvent<&'static str>| intern(e, final_labels))
                    } else {
                        Seq::empty()
                    }),
            decreases threads_number - thread_events@.len(),
        {
            thread_events.push(Vec::new());
        }
        let mut labels: Vec<String> = Vec::new();
        let mut j: usize = 0;
        while j < seen.len()
            invariant
                j <= seen@.len(),
                strings_view(labels@) == str_views(seen@).take(j as int),
            decreases seen@.len() - j,
        {
            let label: String = seen[j].to_owned();
            assert(label@ == seen@[j as int]@);
            let ghost before = labels@;
            assert(before.len() == j) by {
                assert(strings_view(before).len() == before.len());
            }
            labels.push(label);
            assert(labels@ == before.push(label));
            assert forall|k: int| 0 <= k < j + 1 implies strings_view(labels@)[k] == str_views(seen@)[k] by {
                assert(strings_view(labels@)[k] == labels@[k]@);
                assert(str_views(seen@)[k] == seen@[k]@);
                if k < j {
                    assert(strings_view(before)[k] == str_views(seen@).take(j as int)[k]);
                    assert(strings_view(before)[k] == before[k]@);
                } else {
                    assert(labels@[k] == label);
                }
            }
            assert(strings_view(labels@) =~= str_views(seen@).take(j + 1));
            j = j + 1;
        }
        proof {
            assert(views.take(threads@.len() as int) =~= views);
            assert(str_views(seen@).take(seen@.len() as int) =~= str_views(seen@));
        }
        let logs = RawLogs { thread_events, labels };
        assert(logs@.thread_events =~= interned_threads(views, final_labels, threads_number as nat));
        logs
    }
}

} // verus!
