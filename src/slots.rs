use vstd::prelude::*;

verus! {

/// How one segment's unit of work ended.
#[derive(Debug)]
pub enum SegmentOutcome {
    /// The segment was cut and transcribed; this is its text.
    Transcribed(String),
    /// The segment file could not be produced.
    SegmentFailed,
    /// The transcription service did not give a text for the segment.
    TranscriptionFailed,
}

/// What a finished unit leaves in its slot: its text, or nothing on failure.
pub open spec fn outcome_text(o: SegmentOutcome) -> Option<Seq<char>> {
    match o {
        SegmentOutcome::Transcribed(t) => Some(t@),
        _ => None,
    }
}

/// The texts of the filled slots, in slot order; empty slots are skipped.
pub open spec fn successes(slots: Seq<Option<Seq<char>>>) -> Seq<Seq<char>>
    decreases slots.len(),
{
    if slots.len() == 0 {
        Seq::empty()
    } else {
        match slots.last() {
            Some(t) => successes(slots.drop_last()).push(t),
            None => successes(slots.drop_last()),
        }
    }
}

/// `n` slots, none of them filled.
pub open spec fn empty_slots(n: nat) -> Seq<Option<Seq<char>>> {
    Seq::new(n, |i: int| None)
}

/// The slots after the completions `events`, in the order given: each event
/// is a segment index and what its unit left.
pub open spec fn apply_events(
    slots: Seq<Option<Seq<char>>>,
    events: Seq<(nat, Option<Seq<char>>)>,
) -> Seq<Option<Seq<char>>>
    decreases events.len(),
{
    if events.len() == 0 {
        slots
    } else {
        apply_events(slots, events.drop_last()).update(
            events.last().0 as int,
            events.last().1,
        )
    }
}

/// Every event names a segment below `n`, and no segment completes twice.
pub open spec fn valid_events(n: nat, events: Seq<(nat, Option<Seq<char>>)>) -> bool {
    &&& forall|k: int| 0 <= k < events.len() ==> #[trigger] events[k].0 < n
    &&& forall|k1: int, k2: int|
        0 <= k1 < events.len() && 0 <= k2 < events.len() && k1 != k2 ==> #[trigger] events[k1].0
            != #[trigger] events[k2].0
}

/// One result holder per segment, filled as units finish, in any order, and
/// read in segment order once all have finished.
pub struct TranscriptSlots {
    slots: Vec<Option<String>>,
}

pub open spec fn slot_view(o: Option<String>) -> Option<Seq<char>> {
    match o {
        Some(s) => Some(s@),
        None => None,
    }
}

impl View for TranscriptSlots {
    type V = Seq<Option<Seq<char>>>;

    closed spec fn view(&self) -> Seq<Option<Seq<char>>> {
        self.slots@.map_values(|o: Option<String>| slot_view(o))
    }
}

impl TranscriptSlots {
    /// `count` empty slots.
    pub fn new(count: usize) -> (r: TranscriptSlots)
        ensures
            r@ == empty_slots(count as nat),
    {
        let mut slots: Vec<Option<String>> = Vec::new();
        let mut i: usize = 0;
        while i < count
            invariant
                i <= count,
                slots@.len() == i,
                forall|k: int| 0 <= k < i ==> #[trigger] slots@[k] is None,
            decreases count - i,
        {
            slots.push(None);
            i = i + 1;
        }
        let r = TranscriptSlots { slots };
        assert(r@ =~= empty_slots(count as nat));
        r
    }

    pub fn len(&self) -> (r: usize)
        ensures
            r == self@.len(),
    {
        self.slots.len()
    }

    /// Stores what the unit of segment `index` left: its text, or an empty
    /// slot when it failed.
    pub fn record(&mut self, index: usize, outcome: SegmentOutcome)
        requires
            index < old(self)@.len(),
        ensures
            final(self)@ == old(self)@.update(index as int, outcome_text(outcome)),
    {
        let v: Option<String> = match outcome {
            SegmentOutcome::Transcribed(t) => Some(t),
            _ => None,
        };
        self.slots.set(index, v);
        assert(self@ =~= old(self)@.update(index as int, outcome_text(outcome)));
    }

    /// The texts of the filled slots, in segment order.
    pub fn assemble(&self) -> (r: Vec<String>)
        ensures
            r@.map_values(|s: String| s@) == successes(self@),
    {
        let mut out: Vec<String> = Vec::new();
        let mut i: usize = 0;
        while i < self.slots.len()
            invariant
                i <= self.slots@.len(),
                out@.map_values(|s: String| s@) == successes(self@.take(i as int)),
            decreases self.slots@.len() - i,
        {
            proof {
                assert(self@.take(i + 1).drop_last() =~= self@.take(i as int));
            }
            match &self.slots[i] {
                Some(t) => {
                    out.push(t.clone());
                    assert(out@.map_values(|s: String| s@) =~= successes(self@.take(i + 1)));
                },
                None => {},
            }
            i = i + 1;
        }
        assert(self@.take(i as int) =~= self@);
        out
    }
}

proof fn lemma_apply_len(
    slots: Seq<Option<Seq<char>>>,
    events: Seq<(nat, Option<Seq<char>>)>,
)
    requires
        forall|k: int| 0 <= k < events.len() ==> #[trigger] events[k].0 < slots.len(),
    ensures
        apply_events(slots, events).len() == slots.len(),
    decreases events.len(),
{
    if events.len() > 0 {
        let prefix = events.drop_last();
        assert forall|k: int| 0 <= k < prefix.len() implies #[trigger] prefix[k].0 < slots.len() by {
            assert(prefix[k] == events[k]);
        }
        lemma_apply_len(slots, prefix);
    }
}

/// After valid completions, slot `i` holds what the event for `i` left, or
/// nothing when no event names `i`.
proof fn lemma_slot_after_events(n: nat, events: Seq<(nat, Option<Seq<char>>)>, i: int)
    requires
        valid_events(n, events),
        0 <= i < n,
    ensures
        apply_events(empty_slots(n), events).len() == n,
        (forall|k: int| 0 <= k < events.len() ==> events[k].0 != i) ==> apply_events(
            empty_slots(n),
            events,
        )[i] is None,
        forall|k: int|
            0 <= k < events.len() && events[k].0 == i ==> apply_events(empty_slots(n), events)[i]
                == #[trigger] events[k].1,
    decreases events.len(),
{
    if events.len() > 0 {
        let prefix = events.drop_last();
        assert(valid_events(n, prefix)) by {
            assert forall|k1: int, k2: int|
                0 <= k1 < prefix.len() && 0 <= k2 < prefix.len() && k1 != k2 implies #[trigger] prefix[k1].0
                != #[trigger] prefix[k2].0 by {
                assert(prefix[k1] == events[k1] && prefix[k2] == events[k2]);
            }
        }
        lemma_slot_after_events(n, prefix, i);
        let last = events.len() - 1;
        assert(events[last].0 < n);
        assert forall|k: int| 0 <= k < events.len() && events[k].0 == i implies apply_events(
            empty_slots(n),
            events,
        )[i] == #[trigger] events[k].1 by {
            if k < last {
                assert(prefix[k] == events[k]);
                assert(events[k].0 != events[last].0);
            }
        }
        if forall|k: int| 0 <= k < events.len() ==> events[k].0 != i {
            assert forall|k: int| 0 <= k < prefix.len() implies prefix[k].0 != i by {
                assert(prefix[k] == events[k]);
            }
            assert(events[last].0 != i);
        }
    }
}

/// The units may finish in any order: two completion orders of the same
/// results leave the same slots, so the assembled transcript does not depend
/// on the order.
pub proof fn lemma_completion_order_irrelevant(
    n: nat,
    a: Seq<(nat, Option<Seq<char>>)>,
    b: Seq<(nat, Option<Seq<char>>)>,
)
    requires
        valid_events(n, a),
        valid_events(n, b),
        a.to_set() == b.to_set(),
    ensures
        apply_events(empty_slots(n), a) == apply_events(empty_slots(n), b),
        successes(apply_events(empty_slots(n), a)) == successes(apply_events(empty_slots(n), b)),
{
    let sa = apply_events(empty_slots(n), a);
    let sb = apply_events(empty_slots(n), b);
    assert forall|i: int| 0 <= i < n implies sa[i] == sb[i] by {
        lemma_slot_after_events(n, a, i);
        lemma_slot_after_events(n, b, i);
        if exists|k: int| 0 <= k < a.len() && a[k].0 == i {
            let k = choose|k: int| 0 <= k < a.len() && a[k].0 == i;
            assert(a.to_set().contains(a[k]));
            assert(b.to_set().contains(a[k]));
            let k2 = choose|k2: int| 0 <= k2 < b.len() && b[k2] == a[k];
            assert(sb[i] == b[k2].1);
        } else if exists|k: int| 0 <= k < b.len() && b[k].0 == i {
            let k = choose|k: int| 0 <= k < b.len() && b[k].0 == i;
            assert(b.to_set().contains(b[k]));
            assert(a.to_set().contains(b[k]));
            let k2 = choose|k2: int| 0 <= k2 < a.len() && a[k2] == b[k];
            assert(a[k2].0 == i);
        }
    }
    lemma_apply_len(empty_slots(n), a);
    lemma_apply_len(empty_slots(n), b);
    assert(sa =~= sb);
}


/// Slots filled with the given texts, in order.
pub open spec fn filled(texts: Seq<Seq<char>>) -> Seq<Option<Seq<char>>> {
    texts.map_values(|t: Seq<char>| Some(t))
}

proof fn lemma_successes_concat(a: Seq<Option<Seq<char>>>, b: Seq<Option<Seq<char>>>)
    ensures
        successes(a + b) == successes(a) + successes(b),
    decreases b.len(),
{
    if b.len() == 0 {
        assert(a + b =~= a);
        assert(successes(b) =~= Seq::<Seq<char>>::empty());
        assert(successes(a) + successes(b) =~= successes(a));
    } else {
        lemma_successes_concat(a, b.drop_last());
        assert((a + b).drop_last() =~= a + b.drop_last());
        assert((a + b).last() == b.last());
        match b.last() {
            Some(t) => {
                assert(successes(a) + successes(b.drop_last()).push(t) =~= (successes(a)
                    + successes(b.drop_last())).push(t));
            },
            None => {},
        }
    }
}

proof fn lemma_successes_filled(texts: Seq<Seq<char>>)
    ensures
        successes(filled(texts)) == texts,
    decreases texts.len(),
{
    if texts.len() == 0 {
        assert(successes(filled(texts)) =~= texts);
    } else {
        lemma_successes_filled(texts.drop_last());
        assert(filled(texts).drop_last() =~= filled(texts.drop_last()));
        assert(texts.drop_last().push(texts.last()) =~= texts);
    }
}

/// Every segment below `n` has reached a terminal state: some event names it.
pub open spec fn all_completed(n: nat, events: Seq<(nat, Option<Seq<char>>)>) -> bool {
    forall|i: int| 0 <= i < n ==> #[trigger] completed(events, i)
}

/// Some event names segment `i`.
pub open spec fn completed(events: Seq<(nat, Option<Seq<char>>)>, i: int) -> bool {
    exists|k: int| 0 <= k < events.len() && #[trigger] events[k].0 == i
}

/// When every unit succeeds, whatever the order in which they finish, the
/// assembled transcript is the texts in segment order.
pub proof fn lemma_all_succeed_in_order(
    texts: Seq<Seq<char>>,
    events: Seq<(nat, Option<Seq<char>>)>,
)
    requires
        valid_events(texts.len(), events),
        all_completed(texts.len(), events),
        forall|k: int|
            0 <= k < events.len() ==> #[trigger] events[k].1 == Some(texts[events[k].0 as int]),
    ensures
        successes(apply_events(empty_slots(texts.len()), events)) == texts,
{
    let n = texts.len();
    let fin = apply_events(empty_slots(n), events);
    lemma_apply_len(empty_slots(n), events);
    assert forall|i: int| 0 <= i < n implies fin[i] == filled(texts)[i] by {
        lemma_slot_after_events(n, events, i);
        assert(completed(events, i));
        let k = choose|k: int| 0 <= k < events.len() && #[trigger] events[k].0 == i;
        assert(events[k].1 == Some(texts[i]));
    }
    assert(fin =~= filled(texts));
    lemma_successes_filled(texts);
}

/// When exactly one unit fails and every other succeeds, whatever the order in
/// which they finish, the assembled transcript is every other text, in
/// segment order: the failure costs only its own segment.
pub proof fn lemma_single_failure_isolated(
    texts: Seq<Seq<char>>,
    j: nat,
    events: Seq<(nat, Option<Seq<char>>)>,
)
    requires
        j < texts.len(),
        valid_events(texts.len(), events),
        all_completed(texts.len(), events),
        forall|k: int|
            0 <= k < events.len() && events[k].0 != j ==> #[trigger] events[k].1 == Some(
                texts[events[k].0 as int],
            ),
        forall|k: int| 0 <= k < events.len() && events[k].0 == j ==> #[trigger] events[k].1 is None,
    ensures
        successes(apply_events(empty_slots(texts.len()), events)) == texts.remove(j as int),
{
    let n = texts.len();
    let fin = apply_events(empty_slots(n), events);
    lemma_apply_len(empty_slots(n), events);
    let left = filled(texts.take(j as int));
    let right = filled(texts.skip(j as int + 1));
    let mid = seq![None::<Seq<char>>];
    assert forall|i: int| 0 <= i < n implies fin[i] == (left + mid + right)[i] by {
        lemma_slot_after_events(n, events, i);
        assert(completed(events, i));
        let k = choose|k: int| 0 <= k < events.len() && #[trigger] events[k].0 == i;
        if i == j {
            assert(events[k].1 is None);
        } else {
            assert(events[k].1 == Some(texts[i]));
        }
    }
    assert(fin =~= left + mid + right);
    lemma_successes_concat(left + mid, right);
    lemma_successes_concat(left, mid);
    lemma_successes_filled(texts.take(j as int));
    lemma_successes_filled(texts.skip(j as int + 1));
    assert(mid.drop_last() =~= Seq::<Option<Seq<char>>>::empty());
    assert(mid.last() is None);
    assert(successes(mid.drop_last()) =~= Seq::<Seq<char>>::empty());
    assert(successes(mid) =~= Seq::<Seq<char>>::empty());
    assert(texts.take(j as int) + Seq::<Seq<char>>::empty() + texts.skip(j as int + 1) =~= texts.remove(
        j as int,
    ));
}

} // verus!
