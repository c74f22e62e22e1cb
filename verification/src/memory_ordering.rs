//! A lock-free stack whose head is one atomic word.
//!
//! The word holds the address of the top node and a tag that changes with every change of the
//! head. A thread reads the head, prepares the word that is to follow it, and swaps the two if
//! the head is still what it read. Nodes belong to the caller, who keeps each of them in place
//! for as long as the stack lives.
pub use crate::atomics::{Attempt, Handle};
use crate::atomics::{atomic_word, initial_word, words, Access};
use core::marker::PhantomData;
use loom::sync::atomic::AtomicUsize;
use vstd::prelude::*;

verus! {

/// An address, or zero for none, together with a tag.
#[derive(Clone, Copy, Debug, PartialEq, Eq, Structural)]
pub struct TaggedPtr {
    pub ptr: usize,
    pub tag: usize,
}

/// The tag, three bits up, merged bit by bit with the address.
pub open spec fn packed(tagged: TaggedPtr) -> usize {
    (tagged.tag << 3) | tagged.ptr
}

/// The bits from bit 3 on, in place as an address and moved down as a tag.
pub open spec fn unpacked(bits: usize) -> TaggedPtr {
    TaggedPtr { ptr: bits & !0b111, tag: bits >> 3 }
}

impl TaggedPtr {
    /// Merges the tag, three bits up, with the address. The two share their bits, so the word
    /// tells them apart only where they agree; the head of a stack is made by
    /// [`TaggedPtr::to_word`] instead.
    pub fn pack(&self) -> (bits: usize)
        ensures
            bits == packed(*self),
    {
        let ptr_bits: usize = self.ptr;
        (self.tag << 3) | ptr_bits
    }

    /// Takes the bits from bit 3 on both as an address and as a tag.
    pub fn unpack(bits: usize) -> (tagged: TaggedPtr)
        ensures
            tagged == unpacked(bits),
    {
        let ptr: usize = bits & !0b111;
        let tag: usize = bits >> 3;
        TaggedPtr { ptr, tag }
    }
}

/// Nodes lie at multiples of this, so the bits below it are free for a tag.
pub const NODE_ALIGN: usize = 8;

/// The address in a head word, zero where the stack is empty.
pub open spec fn word_address(word: usize) -> usize {
    (word - word % NODE_ALIGN) as usize
}

/// The tag in a head word.
pub open spec fn word_tag(word: usize) -> usize {
    word % NODE_ALIGN
}

/// The head word that holds `address` and as much of `tag` as fits.
pub open spec fn head_word(address: usize, tag: usize) -> usize {
    (address + tag % NODE_ALIGN) as usize
}

/// The head word that follows `word` when the top moves to `address`.
pub open spec fn successor(word: usize, address: usize) -> usize {
    head_word(address, (word_tag(word) + 1) as usize)
}

impl TaggedPtr {
    /// The head word that holds this address and this tag, the latter modulo eight.
    pub fn to_word(&self) -> (word: usize)
        requires
            self.ptr % NODE_ALIGN == 0,
        ensures
            word == head_word(self.ptr, self.tag),
            word_address(word) == self.ptr,
            word_tag(word) == self.tag % NODE_ALIGN,
    {
        proof {
            law_head_word_round_trip(self.ptr, self.tag);
        }
        self.ptr + self.tag % NODE_ALIGN
    }

    /// The address and the tag in a head word.
    pub fn from_word(word: usize) -> (tagged: TaggedPtr)
        ensures
            tagged.ptr == word_address(word),
            tagged.tag == word_tag(word),
            tagged.ptr % NODE_ALIGN == 0,
    {
        let tag: usize = word % NODE_ALIGN;
        TaggedPtr { ptr: word - tag, tag }
    }
}

/// A head word gives back the address that it was made of and the tag modulo eight, and every
/// word is the head word of what it gives back.
pub proof fn law_head_word_round_trip(address: usize, tag: usize)
    requires
        address % NODE_ALIGN == 0,
    ensures
        address + tag % NODE_ALIGN <= usize::MAX,
        word_address(head_word(address, tag)) == address,
        word_tag(head_word(address, tag)) == tag % NODE_ALIGN,
        forall|word: usize| #[trigger] head_word(word_address(word), word_tag(word)) == word,
{
    assert(usize::MAX % NODE_ALIGN == NODE_ALIGN - 1) by {
        assert(usize::MAX == 0xffff_ffff || usize::MAX == 0xffff_ffff_ffff_ffff);
    }
}

/// A value on the stack, or about to be, and the address of the node below it.
pub struct Node<T> {
    pub value: T,
    pub next: usize,
}

/// The change of a head that is `word` which moves the top to `address`.
pub open spec fn change_to(word: usize, address: usize) -> Attempt {
    Attempt { observed: word, replacement: successor(word, address) }
}

/// How to move the top of a stack whose head is `word` to `address`: to a new node, or to the one
/// below the top.
pub fn attempt_to(word: usize, address: usize) -> (attempt: Attempt)
    requires
        address % NODE_ALIGN == 0,
    ensures
        attempt == change_to(word, address),
{
    let tagged = TaggedPtr::from_word(word);
    let new_tagged = TaggedPtr { ptr: address, tag: tagged.tag.wrapping_add(1) };
    Attempt { observed: word, replacement: new_tagged.to_word() }
}

/// The top node of a stack whose head is `word`.
pub fn top(word: usize) -> (address: Option<usize>)
    ensures
        address == if word_address(word) == 0 {
            None
        } else {
            Some(word_address(word))
        },
{
    let tagged = TaggedPtr::from_word(word);
    if tagged.ptr == 0 {
        None
    } else {
        Some(tagged.ptr)
    }
}

/// The change that was made when an exchange tried for `attempt` came back with `previous`: the
/// attempt itself, or none where the exchange was refused.
pub fn made(attempt: Attempt, previous: Result<usize, usize>) -> (change: Option<Attempt>)
    ensures
        change == if previous is Ok {
            Some(attempt)
        } else {
            None
        },
{
    match previous {
        Ok(_) => Some(attempt),
        Err(_) => None,
    }
}

/// What came of trying to pop.
pub enum Popped<T> {
    /// There was nothing on the stack.
    Empty,
    /// The value that was on top, and the change that took it off.
    Taken { value: T, attempt: Attempt },
    /// Other threads got in the way every time.
    Contended,
}

/// What a pop does about a head that is `word`: it goes on with the top node, or ends because
/// there is none.
pub fn found<T>(word: usize) -> (found: Result<usize, Popped<T>>)
    ensures
        found == if word_address(word) == 0 {
            Err(Popped::<T>::Empty)
        } else {
            Ok(word_address(word))
        },
{
    match top(word) {
        Some(address) => Ok(address),
        None => Err(Popped::Empty),
    }
}

/// What came of the pop when an exchange tried for `attempt` came back with `previous`. The value
/// is read only where the node is taken.
pub fn taken<T, V: Fn(usize) -> T>(
    attempt: Attempt,
    previous: Result<usize, usize>,
    value_of: &V,
) -> (popped: Popped<T>)
    requires
        previous is Ok ==> call_requires(*value_of, (word_address(attempt.observed),)),
    ensures
        previous is Err ==> popped is Contended,
        previous is Ok ==> (popped matches Popped::Taken { value, attempt: change } && {
            &&& change == attempt
            &&& call_ensures(*value_of, (word_address(attempt.observed),), value)
        }),
{
    match made(attempt, previous) {
        Some(change) => {
            let tagged = TaggedPtr::from_word(attempt.observed);
            Popped::Taken { value: value_of(tagged.ptr), attempt: change }
        },
        None => Popped::Contended,
    }
}

/// What a function can give: whether `b` can come of handing it `a`.
pub open spec fn gives<A, B, F: Fn(A) -> B>(f: F) -> spec_fn(A, B) -> bool {
    |a: A, b: B| call_ensures(f, (a,), b)
}

/// An exchange for `attempt` that found `other` in place of the observed word.
pub open spec fn refusal(attempt: Attempt, other: usize) -> Access {
    Access::Refused { attempt, found: other }
}

/// Whether two operations are a try to push that was refused: a load of the head, and an exchange
/// to the node that was linked to the top of that head, which found another word.
pub open spec fn refused_push(
    link: spec_fn(usize, usize) -> bool,
    load: Access,
    exchange: Access,
) -> bool {
    exists|word: usize, address: usize, other: usize|
        {
            &&& load == (Access::Loaded { word })
            &&& #[trigger] link(word_address(word), address)
            &&& exchange == (#[trigger] refusal(change_to(word, address), other))
            &&& other != word
        }
}

/// Whether the operations are tries to push that were all refused.
pub open spec fn refused_pushes(
    link: spec_fn(usize, usize) -> bool,
    accesses: Seq<Access>,
) -> bool
    decreases accesses.len(),
{
    let n = accesses.len() as int;
    n == 0 || {
        &&& n >= 2
        &&& refused_push(link, accesses[n - 2], accesses[n - 1])
        &&& refused_pushes(link, accesses.take(n - 2))
    }
}

/// Whether the operations are those of a push with the given result. Where it gives up, each of
/// its tries was refused. Where it succeeds, the tries before the last one were refused, and the
/// last one loaded the head and made the reported change: to the node that `link` gave when it was
/// handed the top of that head.
pub open spec fn pushes(
    link: spec_fn(usize, usize) -> bool,
    tries: u64,
    pushed: Option<Attempt>,
    accesses: Seq<Access>,
) -> bool {
    let n = accesses.len() as int;
    match pushed {
        None => n == 2 * tries && refused_pushes(link, accesses),
        Some(attempt) => {
            &&& 2 <= n <= 2 * tries
            &&& refused_pushes(link, accesses.take(n - 2))
            &&& accesses[n - 2] == (Access::Loaded { word: attempt.observed })
            &&& accesses[n - 1] == (Access::Exchanged { attempt })
            &&& exists|address: usize|
                {
                    &&& #[trigger] link(word_address(attempt.observed), address)
                    &&& attempt == change_to(attempt.observed, address)
                }
        },
    }
}

/// Whether two operations are a try to pop that was refused: a load of the head, which had a top
/// node, and an exchange to what was read below that node, which found another word.
pub open spec fn refused_pop(
    next_of: spec_fn(usize, usize) -> bool,
    load: Access,
    exchange: Access,
) -> bool {
    exists|word: usize, next: usize, other: usize|
        {
            &&& load == (Access::Loaded { word })
            &&& word_address(word) != 0
            &&& #[trigger] next_of(word_address(word), next)
            &&& exchange == (#[trigger] refusal(change_to(word, next), other))
            &&& other != word
        }
}

/// Whether the operations are tries to pop that were all refused.
pub open spec fn refused_pops(
    next_of: spec_fn(usize, usize) -> bool,
    accesses: Seq<Access>,
) -> bool
    decreases accesses.len(),
{
    let n = accesses.len() as int;
    n == 0 || {
        &&& n >= 2
        &&& refused_pop(next_of, accesses[n - 2], accesses[n - 1])
        &&& refused_pops(next_of, accesses.take(n - 2))
    }
}

/// Whether the operations are those of a pop with the given result. Where it gives up, each of
/// its tries was refused. Else the tries before the last one were refused, and the last one
/// either loaded a head without a top node, or loaded one with a top node, made the reported
/// change to what is below that node and read the reported value.
pub open spec fn pops<T>(
    next_of: spec_fn(usize, usize) -> bool,
    value_of: spec_fn(usize, T) -> bool,
    tries: u64,
    popped: Popped<T>,
    accesses: Seq<Access>,
) -> bool {
    let n = accesses.len() as int;
    match popped {
        Popped::Contended => n == 2 * tries && refused_pops(next_of, accesses),
        Popped::Empty => {
            &&& 1 <= n < 2 * tries
            &&& refused_pops(next_of, accesses.take(n - 1))
            &&& exists|word: usize|
                {
                    &&& accesses[n - 1] == (Access::Loaded { word })
                    &&& #[trigger] word_address(word) == 0
                }
        },
        Popped::Taken { value, attempt } => {
            let address = word_address(attempt.observed);
            &&& 2 <= n <= 2 * tries
            &&& refused_pops(next_of, accesses.take(n - 2))
            &&& accesses[n - 2] == (Access::Loaded { word: attempt.observed })
            &&& address != 0
            &&& accesses[n - 1] == (Access::Exchanged { attempt })
            &&& exists|next: usize|
                {
                    &&& #[trigger] next_of(address, next)
                    &&& attempt == change_to(attempt.observed, next)
                }
            &&& value_of(address, value)
        },
    }
}

/// The head of a stack of values of type `T`, shared between threads.
pub struct Stack<T> {
    head: AtomicUsize,
    phantom_data: PhantomData<T>,
}

impl<T> Stack<T> {
    /// The atomic word that holds the head.
    pub closed spec fn head(&self) -> AtomicUsize {
        self.head
    }

    /// An empty stack. Panics outside `loom::model`.
    pub fn new() -> (stack: Stack<T>)
        ensures
            initial_word(stack.head()) == 0,
            words(stack.head()).contains(0),
    {
        Stack { head: atomic_word(0), phantom_data: PhantomData }
    }

    /// A handle of the head, for one thread to push and pop with.
    pub fn handle(&self) -> (handle: Handle<'_>)
        ensures
            handle.atomic() == self.head(),
            handle@ == Seq::<Access>::empty(),
    {
        Handle::new(&self.head)
    }

    /// Tries at most `tries` times to push a node onto the stack whose head `handle` is of. `link`
    /// is handed the address of a top node, or zero, sets the `next` of the new node to it and
    /// gives the address of the new node. The result is the change that put the node on top, or
    /// nothing where other threads got in the way every time. Panics outside `loom::model`.
    ///
    /// A node may be pushed once only, and stays as it is from then on: another thread may still
    /// be looking at it after it has been popped.
    pub fn push<L: Fn(usize) -> usize>(handle: &mut Handle<'_>, link: L, tries: u64) -> (pushed:
        Option<Attempt>)
        requires
            forall|word: usize| #[trigger]
                words(old(handle).atomic()).contains(word) ==> call_requires(
                    link,
                    (word_address(word),),
                ),
            forall|word: usize, address: usize|
                words(old(handle).atomic()).contains(word) && #[trigger] call_ensures(
                    link,
                    (word_address(word),),
                    address,
                ) ==> address != 0 && address % NODE_ALIGN == 0,
        ensures
            final(handle).atomic() == old(handle).atomic(),
            old(handle)@.is_prefix_of(final(handle)@),
            pushes(gives(link), tries, pushed, final(handle)@.skip(old(handle)@.len() as int)),
    {
        let ghost start = handle@;
        let ghost mut accesses: Seq<Access> = Seq::empty();
        let mut left: u64 = tries;
        while left > 0
            invariant
                left <= tries,
                start == old(handle)@,
                handle.atomic() == old(handle).atomic(),
                handle@ == start + accesses,
                accesses.len() == 2 * (tries - left),
                refused_pushes(gives(link), accesses),
                forall|word: usize| #[trigger]
                    words(old(handle).atomic()).contains(word) ==> call_requires(
                        link,
                        (word_address(word),),
                    ),
                forall|word: usize, address: usize|
                    words(old(handle).atomic()).contains(word) && #[trigger] call_ensures(
                        link,
                        (word_address(word),),
                        address,
                    ) ==> address != 0 && address % NODE_ALIGN == 0,
            decreases left,
        {
            left = left - 1;
            let word: usize = handle.load();
            let address: usize = link(TaggedPtr::from_word(word).ptr);
            assert(call_ensures(link, (word_address(word),), address));
            assert(gives(link)(word_address(word), address));
            let attempt = attempt_to(word, address);
            let previous = handle.compare_exchange(attempt);
            let change = made(attempt, previous);
            let ghost done = handle@.skip(start.len() as int);
            assert(handle@ == start + done);
            assert(done.take(done.len() - 2) == accesses);
            if change.is_some() {
                return change;
            }
            proof {
                assert(refused_push(
                    gives(link),
                    done[done.len() - 2],
                    refusal(change_to(word, address), previous->Err_0),
                ));
                accesses = done;
            }
        }
        assert(handle@.skip(start.len() as int) == accesses);
        None
    }

    /// Tries at most `tries` times to pop the top node off the stack whose head `handle` is of.
    /// `next_of` reads the `next` of a node by its address, `value_of` its value; they are asked
    /// of nodes only that have been on top. Panics outside `loom::model`.
    pub fn pop<N: Fn(usize) -> usize, V: Fn(usize) -> T>(
        handle: &mut Handle<'_>,
        next_of: N,
        value_of: V,
        tries: u64,
    ) -> (popped: Popped<T>)
        requires
            forall|word: usize| #[trigger]
                words(old(handle).atomic()).contains(word) && word_address(word) != 0
                    ==> call_requires(next_of, (word_address(word),)) && call_requires(
                    value_of,
                    (word_address(word),),
                ),
            forall|word: usize, next: usize|
                words(old(handle).atomic()).contains(word) && word_address(word) != 0
                    && #[trigger] call_ensures(next_of, (word_address(word),), next) ==> next
                    % NODE_ALIGN == 0,
        ensures
            final(handle).atomic() == old(handle).atomic(),
            old(handle)@.is_prefix_of(final(handle)@),
            pops(
                gives(next_of),
                gives(value_of),
                tries,
                popped,
                final(handle)@.skip(old(handle)@.len() as int),
            ),
    {
        let ghost start = handle@;
        let ghost mut accesses: Seq<Access> = Seq::empty();
        let mut left: u64 = tries;
        while left > 0
            invariant
                left <= tries,
                start == old(handle)@,
                handle.atomic() == old(handle).atomic(),
                handle@ == start + accesses,
                accesses.len() == 2 * (tries - left),
                refused_pops(gives(next_of), accesses),
                forall|word: usize| #[trigger]
                    words(old(handle).atomic()).contains(word) && word_address(word) != 0
                        ==> call_requires(next_of, (word_address(word),)) && call_requires(
                        value_of,
                        (word_address(word),),
                    ),
                forall|word: usize, next: usize|
                    words(old(handle).atomic()).contains(word) && word_address(word) != 0
                        && #[trigger] call_ensures(next_of, (word_address(word),), next) ==> next
                        % NODE_ALIGN == 0,
            decreases left,
        {
            left = left - 1;
            let word: usize = handle.load();
            let address: usize = match found(word) {
                Ok(address) => address,
                Err(popped) => {
                    let ghost done = handle@.skip(start.len() as int);
                    assert(done.take(done.len() - 1) == accesses);
                    return popped;
                },
            };
            let next: usize = next_of(address);
            assert(call_ensures(next_of, (word_address(word),), next));
            assert(gives(next_of)(word_address(word), next));
            let attempt = attempt_to(word, next);
            let previous = handle.compare_exchange(attempt);
            let popped = taken(attempt, previous, &value_of);
            let ghost done = handle@.skip(start.len() as int);
            assert(handle@ == start + done);
            assert(done.take(done.len() - 2) == accesses);
            match popped {
                Popped::Contended => {
                    proof {
                        assert(refused_pop(
                            gives(next_of),
                            done[done.len() - 2],
                            refusal(change_to(word, next), previous->Err_0),
                        ));
                        accesses = done;
                    }
                },
                _ => {
                    return popped;
                },
            }
        }
        assert(handle@.skip(start.len() as int) == accesses);
        Popped::Contended
    }
}

/// A change of the head always changes the head word, also where the address stays the same.
pub proof fn law_head_word_changes(word: usize, address: usize)
    requires
        address % NODE_ALIGN == 0,
    ensures
        successor(word, address) != word,
{
    law_head_word_round_trip(address, (word_tag(word) + 1) as usize);
}

/// A word survives being unpacked and packed except for its three lowest bits.
pub proof fn law_pack_of_unpacked(bits: usize)
    ensures
        packed(unpacked(bits)) == bits & !0b111,
        bits % 8 == 0 ==> packed(unpacked(bits)) == bits,
{
    assert(((bits >> 3) << 3) | (bits & !0b111) == bits & !0b111) by (bit_vector);
    assert(bits % 8 == 0 ==> bits & !0b111 == bits) by (bit_vector);
}

/// An address and a tag survive being packed and unpacked exactly where the tag, three bits up
/// and with none of its bits lost, is the address.
pub proof fn law_unpack_of_packed(tagged: TaggedPtr)
    ensures
        unpacked(packed(tagged)) == tagged <==> {
            &&& tagged.ptr == tagged.tag << 3
            &&& (tagged.tag << 3) >> 3 == tagged.tag
        },
{
    let ptr = tagged.ptr;
    let tag = tagged.tag;
    assert({
        let bits = (tag << 3) | ptr;
        (bits & !0b111 == ptr && bits >> 3 == tag) <==> (ptr == tag << 3 && (tag << 3) >> 3 == tag)
    }) by (bit_vector);
}

/// A head word is the sum of an address, which is a multiple of eight, and a tag below eight.
pub proof fn law_head_word_is_address_and_tag(word: usize)
    ensures
        word_address(word) + word_tag(word) == word,
        word_address(word) % NODE_ALIGN == 0,
        word_tag(word) < NODE_ALIGN,
{
}

/// A change of the head goes from the observed word to the new top, and counts the tag up by one,
/// from seven to zero.
pub proof fn law_change_counts_the_tag_up(word: usize, address: usize)
    requires
        address % NODE_ALIGN == 0,
    ensures
        change_to(word, address).observed == word,
        word_address(change_to(word, address).replacement) == address,
        word_tag(change_to(word, address).replacement) == if word_tag(word) == NODE_ALIGN - 1 {
            0
        } else {
            word_tag(word) + 1
        },
{
    law_head_word_round_trip(address, (word_tag(word) + 1) as usize);
}

/// Unpacking divides by eight for the tag, and takes the largest multiple of eight for the
/// address.
pub proof fn law_unpack_is_division(bits: usize)
    ensures
        unpacked(bits).tag == bits / 8,
        unpacked(bits).ptr == bits - bits % 8,
{
    assert(bits >> 3 == bits / 8) by (bit_vector);
    assert(bits & !0b111 == bits - bits % 8) by (bit_vector);
}

/// A bit of a packed word is set exactly where that bit of the address is, or the bit three below
/// it of the tag.
pub proof fn law_pack_merges_bit_by_bit(tagged: TaggedPtr, i: usize)
    requires
        i < usize::BITS,
    ensures
        (packed(tagged) >> i) & 1 == 1 <==> (tagged.ptr >> i) & 1 == 1 || (i >= 3 && (tagged.tag >> (
        i - 3) as usize) & 1 == 1),
{
    let ptr = tagged.ptr;
    let tag = tagged.tag;
    if i >= 3 {
        let j = (i - 3) as usize;
        assert((((tag << 3) | ptr) >> i) & 1 == 1 <==> (ptr >> i) & 1 == 1 || (tag >> j) & 1 == 1)
            by (bit_vector)
            requires
                i == j + 3,
                i < usize::BITS,
        ;
    } else {
        assert((((tag << 3) | ptr) >> i) & 1 == 1 <==> (ptr >> i) & 1 == 1) by (bit_vector)
            requires
                i < 3,
        ;
    }
}

} // verus!
