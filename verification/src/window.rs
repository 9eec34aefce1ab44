//! A fixed-capacity history of samples that forgets its oldest sample when a
//! new one arrives at a full window.

use crate::number::{parse_i16, spec_parse_i16, ParseError};
use vstd::prelude::*;

verus! {

/// What a window is to its users: its capacity and the samples it holds,
/// oldest first.
#[verifier::ext_equal]
pub struct History {
    pub capacity: nat,
    pub samples: Seq<i16>,
}

impl History {
    /// A history without samples.
    pub open spec fn empty(capacity: nat) -> History {
        History { capacity, samples: Seq::empty() }
    }

    /// Whether the samples fit the capacity. Every window's history does.
    pub open spec fn fits(self) -> bool {
        self.samples.len() <= self.capacity
    }

    /// The history once `sample` has arrived: a full history first lets go of
    /// its oldest sample.
    pub open spec fn with_sample(self, sample: i16) -> History {
        if self.samples.len() < self.capacity {
            History { samples: self.samples.push(sample), ..self }
        } else {
            History { samples: self.samples.push(sample).skip(1), ..self }
        }
    }

    /// The history once `text` was offered to it: the sample that `text`
    /// spells has arrived, and a text that is no sample changes nothing.
    pub open spec fn with_text(self, text: Seq<char>) -> History {
        match spec_parse_i16(text) {
            Ok(sample) => self.with_sample(sample),
            Err(_) => self,
        }
    }

    /// The history once each of `texts` was offered to it in turn.
    pub open spec fn with_texts(self, texts: Seq<Seq<char>>) -> History
        decreases texts.len(),
    {
        if texts.len() == 0 {
            self
        } else {
            self.with_texts(texts.drop_last()).with_text(texts.last())
        }
    }

    /// Where a reading ends that stops `offset` samples short of the newest
    /// one.
    pub open spec fn reading_end(self, offset: nat) -> int {
        if offset >= self.samples.len() {
            0
        } else {
            self.samples.len() - offset
        }
    }

    /// Where a reading of at most `count` samples starts that stops `offset`
    /// samples short of the newest one.
    pub open spec fn reading_start(self, count: nat, offset: nat) -> int {
        if count >= self.reading_end(offset) {
            0
        } else {
            self.reading_end(offset) - count
        }
    }

    /// The reading that `count` and `offset` select: the samples from
    /// `reading_start` up to `reading_end`, oldest first, each with its
    /// position in the reading.
    pub open spec fn reading(self, count: nat, offset: nat) -> Seq<(usize, i16)> {
        let start = self.reading_start(count, offset);
        let end = self.reading_end(offset);
        Seq::new((end - start) as nat, |i: int| (i as usize, self.samples[start + i]))
    }
}

/// The samples that `texts` spell, in order, leaving out the texts that are
/// no sample.
pub open spec fn samples_of(texts: Seq<Seq<char>>) -> Seq<i16>
    decreases texts.len(),
{
    if texts.len() == 0 {
        Seq::empty()
    } else {
        match spec_parse_i16(texts.last()) {
            Ok(sample) => samples_of(texts.drop_last()).push(sample),
            Err(_) => samples_of(texts.drop_last()),
        }
    }
}

/// The last `count` elements of `samples`, or all of them if there are fewer.
pub open spec fn newest(samples: Seq<i16>, count: nat) -> Seq<i16> {
    if samples.len() <= count {
        samples
    } else {
        samples.skip(samples.len() - count)
    }
}

/// A circular store of the most recent samples of one channel.
pub struct Window {
    /// Slots in use. Grows up to `limit`, then slots are overwritten in place.
    slots: Vec<i16>,
    /// Position in `slots` of the oldest sample (0 until the store is full).
    head: usize,
    /// The most samples the window may hold.
    limit: usize,
}

impl View for Window {
    type V = History;

    closed spec fn view(&self) -> History {
        History {
            capacity: self.limit as nat,
            samples: self.slots@.skip(self.head as int) + self.slots@.take(self.head as int),
        }
    }
}

impl Window {
    #[verifier::type_invariant]
    spec fn well_formed(&self) -> bool {
        &&& self.slots@.len() <= self.limit
        &&& (self.head < self.slots@.len() || self.head == 0)
        &&& (self.slots@.len() < self.limit ==> self.head == 0)
    }

    /// An empty window that will hold at most `size` samples.
    pub fn new(size: usize) -> (w: Window)
        ensures
            w@ == History::empty(size as nat),
    {
        let w = Window { slots: Vec::new(), head: 0, limit: size };
        assert(w@.samples =~= Seq::<i16>::empty());
        w
    }

    /// The most samples the window may hold.
    pub fn capacity(&self) -> (c: usize)
        ensures
            c == self@.capacity,
    {
        self.limit
    }

    /// The number of samples held.
    pub fn len(&self) -> (n: usize)
        ensures
            n == self@.samples.len(),
            self@.fits(),
    {
        proof {
            use_type_invariant(self);
        }
        self.slots.len()
    }

    /// The newest sample, or `None` while the window is empty.
    pub fn last(&self) -> (newest: Option<&i16>)
        ensures
            self@.samples.len() == 0 ==> newest is None,
            self@.samples.len() > 0 ==> newest == Some(&self@.samples.last()),
    {
        proof {
            use_type_invariant(self);
        }
        let n = self.slots.len();
        if n == 0 {
            None
        } else if self.head == 0 {
            Some(&self.slots[n - 1])
        } else {
            Some(&self.slots[self.head - 1])
        }
    }

    /// Takes in the sample that `value` spells, or reports why `value` is no
    /// sample and leaves the window as it was.
    pub fn put(&mut self, value: &str) -> (r: Result<(), ParseError>)
        ensures
            final(self)@ == old(self)@.with_text(value@),
            final(self)@.fits(),
            match spec_parse_i16(value@) {
                Ok(_) => r == Ok::<(), ParseError>(()),
                Err(e) => r == Err::<(), ParseError>(e),
            },
    {
        proof {
            use_type_invariant(&*self);
        }
        match parse_i16(value) {
            Ok(sample) => {
                self.push(sample);
                Ok(())
            },
            Err(e) => Err(e),
        }
    }

    /// Takes in `sample`, letting go of the oldest sample if the window is
    /// full.
    pub fn push(&mut self, sample: i16)
        ensures
            final(self)@ == old(self)@.with_sample(sample),
            final(self)@.fits(),
    {
        proof {
            use_type_invariant(&*self);
        }
        if self.limit == 0 {
            assert(self@.samples =~= old(self)@.samples.push(sample).skip(1));
            return ;
        }
        // The slots leave the window while they change, so that the window is
        // never seen half-updated.
        let at = self.head;
        self.head = 0;
        let mut slots: Vec<i16> = Vec::new();
        std::mem::swap(&mut slots, &mut self.slots);
        if slots.len() < self.limit {
            slots.push(sample);
            self.slots = slots;
            assert(self@.samples =~= old(self)@.samples.push(sample));
        } else {
            slots.set(at, sample);
            self.slots = slots;
            self.head = if at + 1 == self.limit {
                0
            } else {
                at + 1
            };
            assert(self@.samples =~= old(self)@.samples.push(sample).skip(1));
        }
    }

    /// Up to `n` samples, oldest first, ending `offset` samples before the
    /// newest one, each paired with its position in the result. Asking for
    /// more than the window holds gives what there is.
    pub fn last_n(&self, n: usize, offset: usize) -> (samples: Vec<(usize, i16)>)
        ensures
            samples@ == self@.reading(n as nat, offset as nat),
            samples@.len() <= n,
            samples@.len() <= self@.samples.len(),
    {
        proof {
            use_type_invariant(self);
        }
        let held = self.slots.len();
        let end: usize = if offset >= held {
            0
        } else {
            held - offset
        };
        let start: usize = if n >= end {
            0
        } else {
            end - n
        };
        let turn: usize = held - self.head;
        let mut samples: Vec<(usize, i16)> = Vec::new();
        let mut i: usize = 0;
        while i < end - start
            invariant
                start <= end <= held == self.slots@.len(),
                self.head <= held,
                turn == held - self.head,
                i <= end - start,
                samples@.len() == i,
                forall|j: int| 0 <= j < i ==> samples@[j] == (j as usize, self@.samples[start + j]),
            decreases end - start - i,
        {
            let k: usize = start + i;
            let at: usize = if k >= turn {
                k - turn
            } else {
                self.head + k
            };
            samples.push((i, self.slots[at]));
            i += 1;
        }
        assert(samples@ =~= self@.reading(n as nat, offset as nat));
        samples
    }
}

/// A sample that arrives at a full history pushes out the oldest sample and
/// no other: every sample that stays moves one place towards the front, and
/// the new sample is the last.
pub proof fn lemma_full_history_drops_oldest(history: History, sample: i16)
    requires
        history.samples.len() == history.capacity,
        history.capacity > 0,
    ensures
        history.with_sample(sample).capacity == history.capacity,
        history.with_sample(sample).samples == history.samples.skip(1).push(sample),
        history.with_sample(sample).samples.len() == history.capacity,
        forall|i: int|
            0 <= i < history.capacity - 1 ==> history.with_sample(sample).samples[i]
                == history.samples[i + 1],
        history.with_sample(sample).samples.last() == sample,
{
    assert(history.samples.push(sample).skip(1) =~= history.samples.skip(1).push(sample));
}

/// Eviction is first in, first out: whatever is offered to a history, it
/// holds the newest samples among those it held and those it was given, in
/// the order in which they arrived, as many as its capacity allows.
pub proof fn lemma_history_keeps_newest(history: History, texts: Seq<Seq<char>>)
    requires
        history.fits(),
    ensures
        history.with_texts(texts).capacity == history.capacity,
        history.with_texts(texts).samples == newest(
            history.samples + samples_of(texts),
            history.capacity,
        ),
    decreases texts.len(),
{
    if texts.len() == 0 {
        assert(history.samples + samples_of(texts) =~= history.samples);
    } else {
        let earlier = texts.drop_last();
        lemma_history_keeps_newest(history, earlier);
        let before = history.samples + samples_of(earlier);
        match spec_parse_i16(texts.last()) {
            Ok(sample) => {
                assert(history.samples + samples_of(texts) =~= before.push(sample));
                assert(history.with_texts(earlier).with_sample(sample).samples =~= newest(
                    before.push(sample),
                    history.capacity,
                ));
            },
            Err(_) => {},
        }
    }
}

/// After any sequence of puts a history holds no more samples than its
/// capacity, and, if it has room for at least one sample, its newest sample
/// is the last one that was put with success.
pub proof fn lemma_history_bounded_and_current(history: History, texts: Seq<Seq<char>>)
    requires
        history.fits(),
    ensures
        history.with_texts(texts).fits(),
        history.capacity > 0 && samples_of(texts).len() > 0 ==> history.with_texts(
            texts,
        ).samples.len() > 0 && history.with_texts(texts).samples.last() == samples_of(texts).last(),
        samples_of(texts).len() == 0 ==> history.with_texts(texts) == history,
{
    lemma_history_keeps_newest(history, texts);
    if samples_of(texts).len() == 0 {
        assert(history.samples + samples_of(texts) =~= history.samples);
    }
}

/// A reading is defined for every count and every offset, however large. It
/// never holds more samples than were asked for, nor more than the history
/// holds: it is as long as asked where the history reaches that far back,
/// shorter where it does not, and empty where the offset passes the oldest
/// sample. Its positions count up from zero, and its samples are those that
/// end `offset` samples before the newest one, oldest first.
pub proof fn lemma_reading_is_clamped(history: History, count: nat, offset: nat)
    ensures
        history.reading(count, offset).len() <= count,
        history.reading(count, offset).len() <= history.samples.len(),
        offset >= history.samples.len() ==> history.reading(count, offset).len() == 0,
        count + offset <= history.samples.len() ==> history.reading(count, offset).len() == count,
        offset <= history.samples.len() && count + offset >= history.samples.len()
            ==> history.reading(count, offset).len() == history.samples.len() - offset,
        forall|i: int|
            0 <= i < history.reading(count, offset).len() ==> (#[trigger] history.reading(
                count,
                offset,
            )[i]).1 == history.samples[history.samples.len() - offset - history.reading(
                count,
                offset,
            ).len() + i],
        forall|i: int|
            0 <= i < history.reading(count, offset).len() && i <= usize::MAX ==> (
            #[trigger] history.reading(count, offset)[i]).0 == i,
{
}

} // verus!
