//! An atomic word of loom, and handles that keep a record of what is done with it.
use loom::sync::atomic::AtomicUsize;
use vstd::prelude::*;

verus! {

/// A change of an atomic word.
#[derive(Clone, Copy, Debug, PartialEq, Eq, Structural)]
pub struct Attempt {
    /// The word that was read.
    pub observed: usize,
    /// The word that is to take its place.
    pub replacement: usize,
}

/// The atomic word of loom.
#[verifier::external_type_specification]
#[verifier::external_body]
pub struct ExAtomicUsize(AtomicUsize);

/// The number that an atomic word was made with.
pub uninterp spec fn initial_word(atomic: AtomicUsize) -> usize;

/// Every word that an atomic word ever holds, from the first to the last. Which of them it holds
/// at a given time is not said.
pub uninterp spec fn words(atomic: AtomicUsize) -> Set<usize>;

/// One operation on an atomic word, and what came of it.
pub enum Access {
    /// A load gave `word`.
    Loaded { word: usize },
    /// An exchange took place.
    Exchanged { attempt: Attempt },
    /// An exchange did not take place, because another word was there.
    Refused { attempt: Attempt, found: usize },
}

/// The one way to an atomic word, together with the record of every operation made through it.
/// The record exists in proofs only. Whoever is given a handle, and not the word itself, can do
/// nothing with the word that is not on record.
pub struct Handle<'a> {
    atomic: &'a AtomicUsize,
    accesses: Ghost<Seq<Access>>,
}

impl<'a> View for Handle<'a> {
    type V = Seq<Access>;

    closed spec fn view(&self) -> Seq<Access> {
        self.accesses@
    }
}

impl<'a> Handle<'a> {
    /// The word that this is a handle of.
    pub closed spec fn atomic(&self) -> AtomicUsize {
        *self.atomic
    }

    /// A handle with nothing on record yet.
    pub(crate) fn new(atomic: &'a AtomicUsize) -> (handle: Handle<'a>)
        ensures
            handle.atomic() == *atomic,
            handle@ == Seq::<Access>::empty(),
    {
        Handle { atomic, accesses: Ghost(Seq::empty()) }
    }

    /// `AtomicUsize::load` with acquire ordering: one of the words that are ever held. Which one
    /// rests on what the other threads have stored, so it is not claimed. The load is the next
    /// operation on record.
    #[verifier::external_body]
    pub(crate) fn load(&mut self) -> (word: usize)
        ensures
            final(self).atomic() == old(self).atomic(),
            words(old(self).atomic()).contains(word),
            final(self)@ == old(self)@.push(Access::Loaded { word }),
    {
        self.atomic.load(loom::sync::atomic::Ordering::Acquire)
    }

    /// `AtomicUsize::compare_exchange`, acquire-release on success and relaxed on failure, from
    /// the observed word of an attempt to its replacement: the word that was there, which is the
    /// observed one if and only if the exchange took place. The exchange, or its refusal, is the
    /// next operation on record. What the word is by the time of the operation after that rests
    /// on the other threads, so it is not claimed.
    #[verifier::external_body]
    pub(crate) fn compare_exchange(&mut self, attempt: Attempt) -> (previous: Result<usize, usize>)
        ensures
            final(self).atomic() == old(self).atomic(),
            previous matches Ok(word) ==> {
                &&& word == attempt.observed
                &&& words(old(self).atomic()).contains(attempt.observed)
                &&& words(old(self).atomic()).contains(attempt.replacement)
                &&& final(self)@ == old(self)@.push(Access::Exchanged { attempt })
            },
            previous matches Err(word) ==> {
                &&& word != attempt.observed
                &&& words(old(self).atomic()).contains(word)
                &&& final(self)@ == old(self)@.push(Access::Refused { attempt, found: word })
            },
    {
        self.atomic.compare_exchange(
            attempt.observed,
            attempt.replacement,
            loom::sync::atomic::Ordering::AcqRel,
            loom::sync::atomic::Ordering::Relaxed,
        )
    }
}

/// `AtomicUsize::new`: an atomic word that starts as `word`. Like every operation of loom it
/// has to be called inside `loom::model`, and panics elsewhere.
#[verifier::external_body]
pub(crate) fn atomic_word(word: usize) -> (atomic: AtomicUsize)
    ensures
        initial_word(atomic) == word,
        words(atomic).contains(word),
{
    AtomicUsize::new(word)
}

/// The changes among some operations.
pub open spec fn changes(accesses: Seq<Access>) -> Seq<Attempt>
    decreases accesses.len(),
{
    if accesses.len() == 0 {
        Seq::empty()
    } else {
        match accesses.last() {
            Access::Exchanged { attempt } => changes(accesses.drop_last()).push(attempt),
            _ => changes(accesses.drop_last()),
        }
    }
}

/// What an atomic word holds after some operations on it, where it held `word` before them and
/// no other thread was active.
pub open spec fn word_after(word: usize, accesses: Seq<Access>) -> usize
    decreases accesses.len(),
{
    if accesses.len() == 0 {
        word
    } else {
        match accesses.last() {
            Access::Exchanged { attempt } => attempt.replacement,
            _ => word_after(word, accesses.drop_last()),
        }
    }
}

/// Whether some operations on an atomic word that held `word` before them went as they go where
/// no other thread is active: each of them found what those before it had left.
pub open spec fn undisturbed(word: usize, accesses: Seq<Access>) -> bool
    decreases accesses.len(),
{
    accesses.len() == 0 || {
        let there = word_after(word, accesses.drop_last());
        &&& undisturbed(word, accesses.drop_last())
        &&& match accesses.last() {
            Access::Loaded { word: loaded } => loaded == there,
            Access::Exchanged { attempt } => attempt.observed == there,
            Access::Refused { found, .. } => found == there,
        }
    }
}

/// The changes of two records, one after the other, are those of both.
pub proof fn law_changes_add_up(first: Seq<Access>, second: Seq<Access>)
    ensures
        changes(first + second) == changes(first) + changes(second),
    decreases second.len(),
{
    if second.len() == 0 {
        assert(first + second == first);
        assert(changes(first) + changes(second) == changes(first));
    } else {
        assert((first + second).drop_last() == first + second.drop_last());
        law_changes_add_up(first, second.drop_last());
    }
}

} // verus!
