//! What several threads do to one stack, as interleavings of the calls that they make.
use crate::atomics::{changes, undisturbed, word_after, Access, Attempt};
use crate::memory_ordering::{
    change_to, law_head_word_round_trip, pops, pushes, refused_pops, refused_pushes, successor,
    word_address, word_tag, Node, Popped, NODE_ALIGN,
};
use vstd::prelude::*;

verus! {

/// What the threads share: the head word, the nodes by address, and the addresses of the nodes
/// that have ever been on the stack.
#[verifier::ext_equal]
pub struct SharedMemory<T> {
    pub head: usize,
    pub nodes: Map<usize, Node<T>>,
    pub published: Set<usize>,
}

/// What one thread does to the shared memory at one point in time. A refused exchange and a load
/// change nothing, so they are no steps. A push or a pop that succeeds is a step with what it
/// reports.
pub enum Step<T> {
    /// A node comes into being, at an address that no node has had.
    Allocate { address: usize, node: Node<T> },
    /// The thread that made a node sets its `next`, before the node is on the stack.
    Link { address: usize, next: usize },
    /// The exchange that pushes a node succeeds.
    Push { address: usize, attempt: Attempt },
    /// The exchange that pops a node succeeds, and its value is handed out.
    Pop { attempt: Attempt, value: T },
}

/// Whether `path` is the chain of nodes from `top` down, the last element being `top`.
pub open spec fn linked<T>(nodes: Map<usize, Node<T>>, top: usize, path: Seq<usize>) -> bool
    decreases path.len(),
{
    if path.len() == 0 {
        top == 0
    } else {
        &&& top != 0
        &&& top % NODE_ALIGN == 0
        &&& top == path.last()
        &&& nodes.contains_key(top)
        &&& linked(nodes, nodes[top].next, path.drop_last())
    }
}

impl<T> SharedMemory<T> {
    pub open spec fn empty() -> SharedMemory<T> {
        SharedMemory { head: 0, nodes: Map::empty(), published: Set::empty() }
    }

    /// Whether the nodes at `path`, the top one last, are the stack.
    pub open spec fn holds(self, path: Seq<usize>) -> bool {
        &&& linked(self.nodes, word_address(self.head), path)
        &&& path.no_duplicates()
        &&& forall|i: int| 0 <= i < path.len() ==> self.published.contains(#[trigger] path[i])
        &&& forall|address: usize| #[trigger]
            self.published.contains(address) ==> self.nodes.contains_key(address)
    }

    /// The values at `path`.
    pub open spec fn values(self, path: Seq<usize>) -> Seq<T> {
        path.map_values(|address: usize| self.nodes[address].value)
    }

    /// Whether the step can be taken. The attempts are those that `attempt_to` makes, from a
    /// head word that may have been read long before.
    pub open spec fn allows(self, step: Step<T>) -> bool {
        match step {
            Step::Allocate { address, .. } => {
                &&& address != 0
                &&& address % NODE_ALIGN == 0
                &&& !self.nodes.contains_key(address)
            },
            Step::Link { address, .. } => {
                &&& self.nodes.contains_key(address)
                &&& !self.published.contains(address)
            },
            Step::Push { address, attempt } => {
                &&& self.head == attempt.observed
                &&& address != 0
                &&& address % NODE_ALIGN == 0
                &&& self.nodes.contains_key(address)
                &&& !self.published.contains(address)
                &&& self.nodes[address].next == word_address(attempt.observed)
                &&& attempt.replacement == successor(attempt.observed, address)
            },
            Step::Pop { attempt, value } => {
                let address = word_address(attempt.observed);
                &&& self.head == attempt.observed
                &&& address != 0
                &&& value == self.nodes[address].value
                &&& attempt.replacement == successor(attempt.observed, self.nodes[address].next)
            },
        }
    }

    pub open spec fn after(self, step: Step<T>) -> SharedMemory<T> {
        match step {
            Step::Allocate { address, node } => SharedMemory {
                nodes: self.nodes.insert(address, node),
                ..self
            },
            Step::Link { address, next } => SharedMemory {
                nodes: self.nodes.insert(address, Node { next, ..self.nodes[address] }),
                ..self
            },
            Step::Push { address, attempt } => SharedMemory {
                head: attempt.replacement,
                published: self.published.insert(address),
                ..self
            },
            Step::Pop { attempt, .. } => SharedMemory { head: attempt.replacement, ..self },
        }
    }

    /// Whether the steps can be taken one after the other.
    pub open spec fn allows_all(self, steps: Seq<Step<T>>) -> bool
        decreases steps.len(),
    {
        steps.len() == 0 || {
            &&& self.allows_all(steps.drop_last())
            &&& self.after_all(steps.drop_last()).allows(steps.last())
        }
    }

    pub open spec fn after_all(self, steps: Seq<Step<T>>) -> SharedMemory<T>
        decreases steps.len(),
    {
        if steps.len() == 0 {
            self
        } else {
            self.after_all(steps.drop_last()).after(steps.last())
        }
    }
}

impl<T> SharedMemory<T> {
    /// The values that the steps push, in that order.
    pub open spec fn pushed(self, steps: Seq<Step<T>>) -> Seq<T>
        decreases steps.len(),
    {
        if steps.len() == 0 {
            Seq::empty()
        } else {
            let before = self.pushed(steps.drop_last());
            match steps.last() {
                Step::Push { address, .. } => before.push(
                    self.after_all(steps.drop_last()).nodes[address].value,
                ),
                _ => before,
            }
        }
    }

    /// The values that the steps hand out, in that order.
    pub open spec fn popped(self, steps: Seq<Step<T>>) -> Seq<T>
        decreases steps.len(),
    {
        if steps.len() == 0 {
            Seq::empty()
        } else {
            let before = self.popped(steps.drop_last());
            match steps.last() {
                Step::Pop { value, .. } => before.push(value),
                _ => before,
            }
        }
    }

    /// The pop that a thread makes where no other thread is active.
    pub open spec fn undisturbed_pop(self) -> Step<T> {
        let node = self.nodes[word_address(self.head)];
        Step::Pop { attempt: change_to(self.head, node.next), value: node.value }
    }

    /// What `n` pops give, one after another, where no other thread is active.
    pub open spec fn undisturbed_pops(self, n: nat) -> Seq<Option<T>>
        decreases n,
    {
        if n == 0 {
            Seq::empty()
        } else if word_address(self.head) == 0 {
            seq![None] + self.undisturbed_pops((n - 1) as nat)
        } else {
            seq![Some(self.nodes[word_address(self.head)].value)] + self.after(
                self.undisturbed_pop(),
            ).undisturbed_pops((n - 1) as nat)
        }
    }
}

/// The step that a push with the given result is.
pub open spec fn push_report<T>(pushed: Option<Attempt>) -> Seq<Step<T>> {
    match pushed {
        Some(attempt) => seq![Step::Push { address: word_address(attempt.replacement), attempt }],
        None => seq![],
    }
}

/// The step that a pop with the given result is.
pub open spec fn pop_report<T>(popped: Popped<T>) -> Seq<Step<T>> {
    match popped {
        Popped::Taken { value, attempt } => seq![Step::Pop { attempt, value }],
        _ => seq![],
    }
}

/// The changes of the head that the steps make.
pub open spec fn changes_of<T>(steps: Seq<Step<T>>) -> Seq<Attempt>
    decreases steps.len(),
{
    if steps.len() == 0 {
        Seq::empty()
    } else {
        match steps.last() {
            Step::Push { attempt, .. } => changes_of(steps.drop_last()).push(attempt),
            Step::Pop { attempt, .. } => changes_of(steps.drop_last()).push(attempt),
            _ => changes_of(steps.drop_last()),
        }
    }
}

/// What a step does to a stack of addresses.
pub open spec fn stack_after<T>(path: Seq<usize>, step: Step<T>) -> Seq<usize> {
    match step {
        Step::Push { address, .. } => path.push(address),
        Step::Pop { .. } => path.drop_last(),
        _ => path,
    }
}

pub open spec fn stack_after_all<T>(path: Seq<usize>, steps: Seq<Step<T>>) -> Seq<usize>
    decreases steps.len(),
{
    if steps.len() == 0 {
        path
    } else {
        stack_after(stack_after_all(path, steps.drop_last()), steps.last())
    }
}

proof fn lemma_linked_frame<T>(
    nodes: Map<usize, Node<T>>,
    other: Map<usize, Node<T>>,
    top: usize,
    path: Seq<usize>,
)
    requires
        linked(nodes, top, path),
        forall|i: int|
            0 <= i < path.len() ==> other.contains_key(#[trigger] path[i]) && other[path[i]]
                == nodes[path[i]],
    ensures
        linked(other, top, path),
    decreases path.len(),
{
    if path.len() > 0 {
        assert(path[path.len() - 1] == top);
        assert forall|i: int| 0 <= i < path.drop_last().len() implies other.contains_key(
            #[trigger] path.drop_last()[i],
        ) && other[path.drop_last()[i]] == nodes[path.drop_last()[i]] by {
            assert(path.drop_last()[i] == path[i]);
        }
        lemma_linked_frame(nodes, other, nodes[top].next, path.drop_last());
    }
}

proof fn lemma_linked_alignment<T>(nodes: Map<usize, Node<T>>, top: usize, path: Seq<usize>)
    requires
        linked(nodes, top, path),
    ensures
        top % NODE_ALIGN == 0,
{
}

/// A stack is empty exactly when its head word holds no address.
pub proof fn law_empty_head<T>(memory: SharedMemory<T>, path: Seq<usize>)
    requires
        memory.holds(path),
    ensures
        path.len() == 0 <==> word_address(memory.head) == 0,
        SharedMemory::<T>::empty().holds(Seq::empty()),
{
}

/// Whatever the threads do in between, a successful exchange pushes one node or pops the top
/// one, and nothing else changes the stack.
pub proof fn law_step_is_a_stack_step<T>(memory: SharedMemory<T>, path: Seq<usize>, step: Step<T>)
    requires
        memory.holds(path),
        memory.allows(step),
    ensures
        memory.after(step).holds(stack_after(path, step)),
        step is Push ==> memory.after(step).values(stack_after(path, step)) == memory.values(
            path,
        ).push(memory.nodes[step->Push_address].value),
        step is Pop ==> {
            &&& path.len() > 0
            &&& word_address(step->Pop_attempt.observed) == path.last()
            &&& memory.after(step).values(stack_after(path, step)) == memory.values(
                path,
            ).drop_last()
        },
        step is Allocate || step is Link ==> memory.after(step).values(path) == memory.values(
            path,
        ),
{
    let next = memory.after(step);
    match step {
        Step::Allocate { address, node } => {
            lemma_linked_frame(memory.nodes, next.nodes, word_address(memory.head), path);
        },
        Step::Link { address, next: _ } => {
            lemma_linked_frame(memory.nodes, next.nodes, word_address(memory.head), path);
        },
        Step::Push { address, attempt } => {
            law_head_word_round_trip(address, (word_tag(attempt.observed) + 1) as usize);
            assert(path.push(address).drop_last() == path);
        },
        Step::Pop { attempt, .. } => {
            let below = memory.nodes[word_address(attempt.observed)].next;
            lemma_linked_alignment(memory.nodes, below, path.drop_last());
            law_head_word_round_trip(below, (word_tag(attempt.observed) + 1) as usize);
            assert(forall|i: int|
                0 <= i < path.drop_last().len() ==> path.drop_last()[i] == path[i]);
        },
    }
}

/// Every interleaving of the threads, from the empty stack on, is a run of a stack: what is
/// reached holds the nodes that were pushed and not yet popped, in that order.
pub proof fn law_every_interleaving_is_a_stack<T>(steps: Seq<Step<T>>)
    requires
        SharedMemory::<T>::empty().allows_all(steps),
    ensures
        SharedMemory::<T>::empty().after_all(steps).holds(
            stack_after_all(Seq::empty(), steps),
        ),
    decreases steps.len(),
{
    if steps.len() > 0 {
        let before = steps.drop_last();
        law_every_interleaving_is_a_stack(before);
        law_step_is_a_stack_step(
            SharedMemory::<T>::empty().after_all(before),
            stack_after_all(Seq::empty(), before),
            steps.last(),
        );
    }
}

/// A node that has been on the stack never changes, so what a thread read of the top node still
/// holds when its exchange succeeds, however late.
pub proof fn law_published_nodes_are_stable<T>(
    memory: SharedMemory<T>,
    steps: Seq<Step<T>>,
    address: usize,
)
    requires
        memory.allows_all(steps),
        memory.published.contains(address),
        memory.nodes.contains_key(address),
    ensures
        memory.after_all(steps).published.contains(address),
        memory.after_all(steps).nodes.contains_key(address),
        memory.after_all(steps).nodes[address] == memory.nodes[address],
    decreases steps.len(),
{
    if steps.len() > 0 {
        law_published_nodes_are_stable(memory, steps.drop_last(), address);
    }
}

/// A pop right after a push takes the pushed value and leaves the stack as it was.
pub proof fn law_pop_undoes_push<T>(
    memory: SharedMemory<T>,
    path: Seq<usize>,
    push: Step<T>,
    pop: Step<T>,
)
    requires
        memory.holds(path),
        push is Push,
        pop is Pop,
        memory.allows(push),
        memory.after(push).allows(pop),
    ensures
        word_address(pop->Pop_attempt.observed) == push->Push_address,
        memory.after(push).after(pop).holds(path),
        memory.after(push).after(pop).values(path) == memory.values(path),
{
    law_step_is_a_stack_step(memory, path, push);
    let pushed = path.push(push->Push_address);
    law_step_is_a_stack_step(memory.after(push), pushed, pop);
    assert(pushed.drop_last() == path);
    assert(memory.values(path).push(memory.nodes[push->Push_address].value).drop_last()
        == memory.values(path));
}

/// Popping without interference gives the values from the top down, and after the last one
/// nothing.
pub proof fn law_pops_give_the_values<T>(memory: SharedMemory<T>, path: Seq<usize>, n: nat)
    requires
        memory.holds(path),
    ensures
        memory.undisturbed_pops(n) == Seq::new(
            n,
            |i: int|
                if i < path.len() {
                    Some(memory.values(path)[path.len() - 1 - i])
                } else {
                    None
                },
        ),
    decreases n,
{
    if n > 0 {
        law_empty_head(memory, path);
        if path.len() == 0 {
            law_pops_give_the_values(memory, path, (n - 1) as nat);
        } else {
            let step = memory.undisturbed_pop();
            law_step_is_a_stack_step(memory, path, step);
            law_pops_give_the_values(memory.after(step), path.drop_last(), (n - 1) as nat);
        }
    }
}

proof fn lemma_refused_pushes_change_nothing(
    link: spec_fn(usize, usize) -> bool,
    accesses: Seq<Access>,
)
    requires
        refused_pushes(link, accesses),
    ensures
        changes(accesses) == Seq::<Attempt>::empty(),
    decreases accesses.len(),
{
    let n = accesses.len() as int;
    if n > 0 {
        lemma_refused_pushes_change_nothing(link, accesses.take(n - 2));
        lemma_last_two(accesses);
    }
}

proof fn lemma_refused_pops_change_nothing(
    next_of: spec_fn(usize, usize) -> bool,
    accesses: Seq<Access>,
)
    requires
        refused_pops(next_of, accesses),
    ensures
        changes(accesses) == Seq::<Attempt>::empty(),
    decreases accesses.len(),
{
    let n = accesses.len() as int;
    if n > 0 {
        lemma_refused_pops_change_nothing(next_of, accesses.take(n - 2));
        lemma_last_two(accesses);
    }
}

proof fn lemma_last_two(accesses: Seq<Access>)
    requires
        accesses.len() >= 2,
    ensures
        accesses.drop_last().last() == accesses[accesses.len() - 2],
        accesses.drop_last().drop_last() == accesses.take(accesses.len() - 2),
        accesses[accesses.len() - 1] is Refused && accesses[accesses.len() - 2] is Loaded
            ==> changes(accesses) == changes(accesses.take(accesses.len() - 2)),
        accesses[accesses.len() - 1] is Exchanged && accesses[accesses.len() - 2] is Loaded
            ==> changes(accesses) == changes(accesses.take(accesses.len() - 2)).push(
            accesses.last()->Exchanged_attempt,
        ),
{
    reveal_with_fuel(changes, 3);
    assert(accesses.drop_last().drop_last() == accesses.take(accesses.len() - 2));
}

/// A push reports what it did: it made the change that it reports, and no other one.
pub proof fn law_push_reports_its_changes<T>(
    link: spec_fn(usize, usize) -> bool,
    tries: u64,
    pushed: Option<Attempt>,
    accesses: Seq<Access>,
)
    requires
        pushes(link, tries, pushed, accesses),
    ensures
        changes(accesses) == changes_of(push_report::<T>(pushed)),
{
    let n = accesses.len() as int;
    reveal_with_fuel(changes_of, 2);
    if pushed is Some {
        lemma_refused_pushes_change_nothing(link, accesses.take(n - 2));
        lemma_last_two(accesses);
        assert(push_report::<T>(pushed).drop_last() == Seq::<Step<T>>::empty());
    } else {
        lemma_refused_pushes_change_nothing(link, accesses);
    }
}

/// A pop reports what it did: it made the change that it reports, and no other one.
pub proof fn law_pop_reports_its_changes<T>(
    next_of: spec_fn(usize, usize) -> bool,
    value_of: spec_fn(usize, T) -> bool,
    tries: u64,
    popped: Popped<T>,
    accesses: Seq<Access>,
)
    requires
        pops(next_of, value_of, tries, popped, accesses),
    ensures
        changes(accesses) == changes_of(pop_report(popped)),
{
    let n = accesses.len() as int;
    reveal_with_fuel(changes_of, 2);
    match popped {
        Popped::Taken { .. } => {
            lemma_refused_pops_change_nothing(next_of, accesses.take(n - 2));
            lemma_last_two(accesses);
            assert(pop_report(popped).drop_last() == Seq::<Step<T>>::empty());
        },
        Popped::Empty => {
            lemma_refused_pops_change_nothing(next_of, accesses.take(n - 1));
            assert(accesses.drop_last() == accesses.take(n - 1));
        },
        Popped::Contended => {
            lemma_refused_pops_change_nothing(next_of, accesses);
        },
    }
}

/// Whether a node that `link` gives for the present top is a new node in the memory, and linked
/// to that top.
pub open spec fn links<T>(
    memory: SharedMemory<T>,
    link: spec_fn(usize, usize) -> bool,
) -> bool {
    forall|address: usize| #[trigger]
        link(word_address(memory.head), address) ==> {
            &&& address != 0
            &&& address % NODE_ALIGN == 0
            &&& memory.nodes.contains_key(address)
            &&& !memory.published.contains(address)
            &&& memory.nodes[address].next == word_address(memory.head)
        }
}

/// Whether what `next_of` and `value_of` give of a node that has been on the stack is what the
/// memory has.
pub open spec fn reads<T>(
    memory: SharedMemory<T>,
    next_of: spec_fn(usize, usize) -> bool,
    value_of: spec_fn(usize, T) -> bool,
) -> bool {
    &&& forall|address: usize, next: usize|
        memory.published.contains(address) && #[trigger] next_of(address, next) ==> next
            == memory.nodes[address].next
    &&& forall|address: usize, value: T|
        memory.published.contains(address) && #[trigger] value_of(address, value) ==> value
            == memory.nodes[address].value
}

/// A push that succeeds adds exactly one value, on top: at the moment of its change, pops would
/// have given what they give after the pushed value now. The head is then the observed word,
/// which is what the exchange compares it with.
pub proof fn law_push_adds_one_on_top<T>(
    link: spec_fn(usize, usize) -> bool,
    tries: u64,
    attempt: Attempt,
    accesses: Seq<Access>,
    memory: SharedMemory<T>,
    path: Seq<usize>,
    n: nat,
)
    requires
        pushes(link, tries, Some(attempt), accesses),
        memory.holds(path),
        memory.head == attempt.observed,
        links(memory, link),
    ensures
        ({
            let address = word_address(attempt.replacement);
            let step = Step::Push { address, attempt };
            let value = memory.nodes[address].value;
            &&& push_report::<T>(Some(attempt)) == seq![step]
            &&& link(word_address(attempt.observed), address)
            &&& memory.allows(step)
            &&& memory.after(step).holds(path.push(address))
            &&& memory.after(step).values(path.push(address)) == memory.values(path).push(value)
            &&& memory.after(step).undisturbed_pops(n + 1) == seq![Some(value)]
                + memory.undisturbed_pops(n)
        }),
{
    let linked_node = choose|address: usize|
        {
            &&& #[trigger] link(word_address(attempt.observed), address)
            &&& attempt == change_to(attempt.observed, address)
        };
    law_head_word_round_trip(linked_node, (word_tag(attempt.observed) + 1) as usize);
    let step = Step::Push { address: linked_node, attempt };
    law_step_is_a_stack_step(memory, path, step);
    law_pops_give_the_values(memory, path, n);
    law_pops_give_the_values(memory.after(step), path.push(linked_node), n + 1);
}

/// A pop that succeeds takes exactly one value off, the top one, hands it out and keeps the rest
/// in order. The head is the observed word at the moment of its change.
pub proof fn law_pop_takes_the_top<T>(
    next_of: spec_fn(usize, usize) -> bool,
    value_of: spec_fn(usize, T) -> bool,
    tries: u64,
    value: T,
    attempt: Attempt,
    accesses: Seq<Access>,
    memory: SharedMemory<T>,
    path: Seq<usize>,
    n: nat,
)
    requires
        pops(next_of, value_of, tries, Popped::Taken { value, attempt }, accesses),
        memory.holds(path),
        memory.head == attempt.observed,
        reads(memory, next_of, value_of),
    ensures
        ({
            let step = Step::Pop { attempt, value };
            &&& pop_report(Popped::Taken { value, attempt }) == seq![step]
            &&& memory.allows(step)
            &&& path.len() > 0
            &&& value == memory.values(path).last()
            &&& memory.after(step).holds(path.drop_last())
            &&& memory.after(step).values(path.drop_last()) == memory.values(path).drop_last()
            &&& memory.undisturbed_pops(n + 1) == seq![Some(value)] + memory.after(
                step,
            ).undisturbed_pops(n)
        }),
{
    law_empty_head(memory, path);
    assert(memory.published.contains(path[path.len() - 1]));
    let step = Step::Pop { attempt, value };
    law_step_is_a_stack_step(memory, path, step);
    assert(memory.undisturbed_pop() == step);
}

proof fn lemma_undisturbed_push_is_not_refused(
    link: spec_fn(usize, usize) -> bool,
    word: usize,
    accesses: Seq<Access>,
)
    requires
        refused_pushes(link, accesses),
        undisturbed(word, accesses),
    ensures
        accesses.len() == 0,
{
    if accesses.len() > 0 {
        lemma_last_two(accesses);
        assert(undisturbed(word, accesses.drop_last()));
    }
}

proof fn lemma_undisturbed_pop_is_not_refused(
    next_of: spec_fn(usize, usize) -> bool,
    word: usize,
    accesses: Seq<Access>,
)
    requires
        refused_pops(next_of, accesses),
        undisturbed(word, accesses),
    ensures
        accesses.len() == 0,
{
    if accesses.len() > 0 {
        lemma_last_two(accesses);
        assert(undisturbed(word, accesses.drop_last()));
    }
}

/// Where no other thread is active, a push succeeds at the first try and adds exactly one value
/// on top: afterwards pops give that value and then what they would have given before.
pub proof fn law_undisturbed_push<T>(
    link: spec_fn(usize, usize) -> bool,
    tries: u64,
    pushed: Option<Attempt>,
    accesses: Seq<Access>,
    memory: SharedMemory<T>,
    path: Seq<usize>,
    n: nat,
)
    requires
        pushes(link, tries, pushed, accesses),
        undisturbed(memory.head, accesses),
        tries > 0,
        memory.holds(path),
        links(memory, link),
    ensures
        pushed matches Some(attempt) && {
            let address = word_address(attempt.replacement);
            let after = memory.after(Step::Push { address, attempt });
            &&& link(word_address(memory.head), address)
            &&& attempt == change_to(memory.head, address)
            &&& word_after(memory.head, accesses) == after.head
            &&& after.holds(path.push(address))
            &&& after.values(path.push(address)) == memory.values(path).push(
                memory.nodes[address].value,
            )
            &&& after.undisturbed_pops(n + 1) == seq![Some(memory.nodes[address].value)]
                + memory.undisturbed_pops(n)
        },
{
    let len = accesses.len() as int;
    match pushed {
        None => {
            lemma_undisturbed_push_is_not_refused(link, memory.head, accesses);
        },
        Some(attempt) => {
            lemma_last_two(accesses);
            assert(undisturbed(memory.head, accesses.drop_last()));
            assert(undisturbed(memory.head, accesses.drop_last().drop_last()));
            lemma_undisturbed_push_is_not_refused(link, memory.head, accesses.take(len - 2));
            law_push_adds_one_on_top(link, tries, attempt, accesses, memory, path, n);
        },
    }
}

/// Where no other thread is active, a pop ends at the first try: it hands out the top value and
/// leaves the rest, or says that the stack is empty if and only if it is.
pub proof fn law_undisturbed_pop<T>(
    next_of: spec_fn(usize, usize) -> bool,
    value_of: spec_fn(usize, T) -> bool,
    tries: u64,
    popped: Popped<T>,
    accesses: Seq<Access>,
    memory: SharedMemory<T>,
    path: Seq<usize>,
)
    requires
        pops(next_of, value_of, tries, popped, accesses),
        undisturbed(memory.head, accesses),
        tries > 0,
        memory.holds(path),
        reads(memory, next_of, value_of),
    ensures
        path.len() == 0 ==> popped is Empty && word_after(memory.head, accesses) == memory.head,
        path.len() > 0 ==> (popped matches Popped::Taken { value, attempt } && {
            let after = memory.after(Step::Pop { attempt, value });
            &&& value == memory.values(path).last()
            &&& word_after(memory.head, accesses) == after.head
            &&& after.holds(path.drop_last())
            &&& after.values(path.drop_last()) == memory.values(path).drop_last()
        }),
{
    let len = accesses.len() as int;
    law_empty_head(memory, path);
    match popped {
        Popped::Contended => {
            lemma_undisturbed_pop_is_not_refused(next_of, memory.head, accesses);
        },
        Popped::Empty => {
            assert(accesses.drop_last() == accesses.take(len - 1));
            lemma_undisturbed_pop_is_not_refused(next_of, memory.head, accesses.take(len - 1));
        },
        Popped::Taken { value, attempt } => {
            lemma_last_two(accesses);
            assert(undisturbed(memory.head, accesses.drop_last()));
            assert(undisturbed(memory.head, accesses.drop_last().drop_last()));
            lemma_undisturbed_pop_is_not_refused(next_of, memory.head, accesses.take(len - 2));
            law_pop_takes_the_top(
                next_of,
                value_of,
                tries,
                value,
                attempt,
                accesses,
                memory,
                path,
                0,
            );
        },
    }
}

/// Where no other thread is active, a pop gives back what the push before it put on the stack,
/// and the stack is then as it was before both.
pub proof fn law_pop_gives_back_what_was_pushed<T>(
    link: spec_fn(usize, usize) -> bool,
    attempt: Attempt,
    pushing: Seq<Access>,
    next_of: spec_fn(usize, usize) -> bool,
    value_of: spec_fn(usize, T) -> bool,
    popped: Popped<T>,
    popping: Seq<Access>,
    tries: u64,
    memory: SharedMemory<T>,
    path: Seq<usize>,
)
    requires
        pushes(link, tries, Some(attempt), pushing),
        pops(next_of, value_of, tries, popped, popping),
        undisturbed(memory.head, pushing),
        undisturbed(word_after(memory.head, pushing), popping),
        memory.holds(path),
        links(memory, link),
        reads(
            memory.after(Step::Push { address: word_address(attempt.replacement), attempt }),
            next_of,
            value_of,
        ),
    ensures
        popped matches Popped::Taken { value, attempt: change } && {
            let address = word_address(attempt.replacement);
            let after = memory.after(Step::Push { address, attempt }).after(
                Step::Pop { attempt: change, value },
            );
            &&& value == memory.nodes[address].value
            &&& after.holds(path)
            &&& after.values(path) == memory.values(path)
        },
{
    law_undisturbed_push(link, tries, Some(attempt), pushing, memory, path, 0);
    let address = word_address(attempt.replacement);
    let pushed_path = path.push(address);
    law_undisturbed_pop(
        next_of,
        value_of,
        tries,
        popped,
        popping,
        memory.after(Step::Push { address, attempt }),
        pushed_path,
    );
    assert(pushed_path.drop_last() == path);
    assert(memory.values(path).push(memory.nodes[address].value).drop_last() == memory.values(
        path,
    ));
}

/// Over every interleaving of the threads no value is lost, doubled or made up: the values that
/// were pushed are those that were popped together with those that are still held, each as often
/// as it was pushed. Popping the rest without interference gives those that are still held, and
/// after them nothing.
pub proof fn law_no_value_is_lost_or_doubled<T>(steps: Seq<Step<T>>, n: nat)
    requires
        SharedMemory::<T>::empty().allows_all(steps),
    ensures
        ({
            let start = SharedMemory::<T>::empty();
            let memory = start.after_all(steps);
            let held = memory.values(stack_after_all(Seq::empty(), steps));
            &&& memory.holds(stack_after_all(Seq::empty(), steps))
            &&& start.pushed(steps).to_multiset() == start.popped(steps).to_multiset().add(
                held.to_multiset(),
            )
            &&& memory.undisturbed_pops(n) == Seq::new(
                n,
                |i: int|
                    if i < held.len() {
                        Some(held[held.len() - 1 - i])
                    } else {
                        None
                    },
            )
        }),
    decreases steps.len(),
{
    let start = SharedMemory::<T>::empty();
    let memory = start.after_all(steps);
    let path = stack_after_all(Seq::empty(), steps);
    law_every_interleaving_is_a_stack(steps);
    law_pops_give_the_values(memory, path, n);
    broadcast use vstd::seq_lib::group_to_multiset_ensures;

    if steps.len() == 0 {
        assert(memory.values(path) == Seq::<T>::empty());
        assert(start.pushed(steps).to_multiset() == start.popped(steps).to_multiset().add(
            memory.values(path).to_multiset(),
        ));
    } else {
        let before = steps.drop_last();
        let earlier = start.after_all(before);
        let earlier_path = stack_after_all(Seq::empty(), before);
        law_no_value_is_lost_or_doubled(before, n);
        law_step_is_a_stack_step(earlier, earlier_path, steps.last());
        if steps.last() is Pop {
            let held = earlier.values(earlier_path);
            assert(held == held.drop_last().push(held.last()));
        }
        assert(start.pushed(steps).to_multiset() == start.popped(steps).to_multiset().add(
            memory.values(path).to_multiset(),
        ));
    }
}

/// One call of `Stack::push` or `Stack::pop`: what it was given, what it returned and what it
/// did with the head in between.
#[verifier::reject_recursive_types(T)]
pub enum Call<T> {
    Push {
        link: spec_fn(usize, usize) -> bool,
        tries: u64,
        pushed: Option<Attempt>,
        accesses: Seq<Access>,
    },
    Pop {
        next_of: spec_fn(usize, usize) -> bool,
        value_of: spec_fn(usize, T) -> bool,
        tries: u64,
        popped: Popped<T>,
        accesses: Seq<Access>,
    },
}

impl<T> Call<T> {
    /// Whether the call went as the functions say of themselves.
    pub open spec fn went(self) -> bool {
        match self {
            Call::Push { link, tries, pushed, accesses } => pushes(link, tries, pushed, accesses),
            Call::Pop { next_of, value_of, tries, popped, accesses } => pops(
                next_of,
                value_of,
                tries,
                popped,
                accesses,
            ),
        }
    }

    /// What the call did with the head.
    pub open spec fn accesses(self) -> Seq<Access> {
        match self {
            Call::Push { accesses, .. } => accesses,
            Call::Pop { accesses, .. } => accesses,
        }
    }

    /// The step that the call is, where it reports a success.
    pub open spec fn report(self) -> Seq<Step<T>> {
        match self {
            Call::Push { pushed, .. } => push_report(pushed),
            Call::Pop { popped, .. } => pop_report(popped),
        }
    }

    /// Whether the change that the call reports, if it reports one, can come when the memory is
    /// as given: the exchange finds the observed word, a node to push has been linked, and the
    /// nodes are read as they are.
    pub open spec fn fits(self, memory: SharedMemory<T>) -> bool {
        match self {
            Call::Push { link, pushed, .. } => pushed matches Some(attempt) ==> {
                &&& memory.head == attempt.observed
                &&& links(memory, link)
            },
            Call::Pop { next_of, value_of, popped, .. } => popped matches Popped::Taken {
                attempt,
                ..
            } ==> {
                &&& memory.head == attempt.observed
                &&& reads(memory, next_of, value_of)
            },
        }
    }
}

/// What happens while several threads share a stack.
#[verifier::reject_recursive_types(T)]
pub enum Moment<T> {
    /// A thread makes a node, or links one that it has made.
    Prepared { step: Step<T> },
    /// A call, at the point in time of the change that it reports; one that reports none may
    /// stand anywhere.
    Called { call: Call<T> },
}

/// The steps of what happens.
pub open spec fn steps_of<T>(moments: Seq<Moment<T>>) -> Seq<Step<T>>
    decreases moments.len(),
{
    if moments.len() == 0 {
        Seq::empty()
    } else {
        steps_of(moments.drop_last()) + match moments.last() {
            Moment::Prepared { step } => seq![step],
            Moment::Called { call } => call.report(),
        }
    }
}

/// The memory after what happens, from an empty stack on.
pub open spec fn memory_after<T>(moments: Seq<Moment<T>>) -> SharedMemory<T> {
    SharedMemory::<T>::empty().after_all(steps_of(moments))
}

/// Whether all this can happen, from an empty stack on, in any interleaving of the threads.
pub open spec fn happens<T>(moments: Seq<Moment<T>>) -> bool
    decreases moments.len(),
{
    moments.len() == 0 || {
        &&& happens(moments.drop_last())
        &&& match moments.last() {
            Moment::Prepared { step } => {
                &&& step is Allocate || step is Link
                &&& memory_after(moments.drop_last()).allows(step)
            },
            Moment::Called { call } => {
                &&& call.went()
                &&& call.fits(memory_after(moments.drop_last()))
            },
        }
    }
}

/// The values that the pops return, in that order.
pub open spec fn returned<T>(moments: Seq<Moment<T>>) -> Seq<T>
    decreases moments.len(),
{
    if moments.len() == 0 {
        Seq::empty()
    } else {
        match moments.last() {
            Moment::Called { call: Call::Pop { popped: Popped::Taken { value, .. }, .. } } => {
                returned(moments.drop_last()).push(value)
            },
            _ => returned(moments.drop_last()),
        }
    }
}

/// The changes of the head that the calls make.
pub open spec fn changes_made<T>(moments: Seq<Moment<T>>) -> Seq<Attempt>
    decreases moments.len(),
{
    if moments.len() == 0 {
        Seq::empty()
    } else {
        match moments.last() {
            Moment::Called { call } => changes_made(moments.drop_last()) + changes(
                call.accesses(),
            ),
            _ => changes_made(moments.drop_last()),
        }
    }
}

/// Whatever calls several threads make, in any interleaving, together they are a run of a stack,
/// and the changes of the head that they make are those of that run and no others.
pub proof fn law_calls_are_a_run_of_a_stack<T>(moments: Seq<Moment<T>>)
    requires
        happens(moments),
    ensures
        SharedMemory::<T>::empty().allows_all(steps_of(moments)),
        memory_after(moments).holds(stack_after_all(Seq::empty(), steps_of(moments))),
        changes_made(moments) == changes_of(steps_of(moments)),
        returned(moments) == SharedMemory::<T>::empty().popped(steps_of(moments)),
    decreases moments.len(),
{
    if moments.len() > 0 {
        let before = moments.drop_last();
        let steps = steps_of(before);
        let memory = memory_after(before);
        let path = stack_after_all(Seq::empty(), steps);
        law_calls_are_a_run_of_a_stack(before);
        match moments.last() {
            Moment::Prepared { step } => {
                assert(steps_of(moments) == steps.push(step));
                assert(steps.push(step).drop_last() == steps);
            },
            Moment::Called { call } => {
                lemma_call_is_a_step(call, memory, path);
                reveal_with_fuel(changes_of, 2);
                if call.report().len() == 0 {
                    assert(steps_of(moments) == steps);
                    assert(changes_made(moments) == changes_made(before));
                } else {
                    let step = call.report()[0];
                    assert(call.report() == seq![step]);
                    assert(call.report().drop_last() == Seq::<Step<T>>::empty());
                    assert(steps_of(moments) == steps.push(step));
                    assert(steps.push(step).drop_last() == steps);
                }
            },
        }
    }
    law_every_interleaving_is_a_stack(steps_of(moments));
}

proof fn lemma_call_is_a_step<T>(call: Call<T>, memory: SharedMemory<T>, path: Seq<usize>)
    requires
        call.went(),
        call.fits(memory),
        memory.holds(path),
    ensures
        call.report().len() <= 1,
        call.report().len() == 1 ==> memory.allows(call.report()[0]),
        changes(call.accesses()) == changes_of(call.report()),
{
    match call {
        Call::Push { link, tries, pushed, accesses } => {
            law_push_reports_its_changes::<T>(link, tries, pushed, accesses);
            if let Some(attempt) = pushed {
                law_push_adds_one_on_top(link, tries, attempt, accesses, memory, path, 0);
            }
        },
        Call::Pop { next_of, value_of, tries, popped, accesses } => {
            law_pop_reports_its_changes(next_of, value_of, tries, popped, accesses);
            if let Popped::Taken { value, attempt } = popped {
                law_pop_takes_the_top(
                    next_of,
                    value_of,
                    tries,
                    value,
                    attempt,
                    accesses,
                    memory,
                    path,
                    0,
                );
            }
        },
    }
}

/// Whatever calls several threads make, in any interleaving, no value is lost, doubled or made
/// up: the values that the successful pushes put on the stack are those that the pops returned
/// together with those that are still on it, each as often as it was pushed. Draining the stack
/// gives those that are still on it, and after them nothing.
pub proof fn law_calls_lose_no_value<T>(moments: Seq<Moment<T>>, n: nat)
    requires
        happens(moments),
    ensures
        ({
            let memory = memory_after(moments);
            let path = stack_after_all(Seq::empty(), steps_of(moments));
            let held = memory.values(path);
            &&& memory.holds(path)
            &&& SharedMemory::<T>::empty().pushed(steps_of(moments)).to_multiset() == returned(
                moments,
            ).to_multiset().add(held.to_multiset())
            &&& memory.undisturbed_pops(n) == Seq::new(
                n,
                |i: int|
                    if i < held.len() {
                        Some(held[held.len() - 1 - i])
                    } else {
                        None
                    },
            )
        }),
{
    law_calls_are_a_run_of_a_stack(moments);
    law_no_value_is_lost_or_doubled(steps_of(moments), n);
}

proof fn lemma_refused_pushes_alternate(
    link: spec_fn(usize, usize) -> bool,
    accesses: Seq<Access>,
    i: int,
)
    requires
        refused_pushes(link, accesses),
        0 <= i < accesses.len() / 2,
    ensures
        accesses.len() % 2 == 0,
        accesses[2 * i] matches Access::Loaded { word } && (accesses[2 * i
            + 1] matches Access::Refused { attempt, found } && {
            &&& attempt.observed == word
            &&& found != word
            &&& exists|address: usize| #[trigger]
                link(word_address(word), address) && attempt == change_to(word, address)
        }),
    decreases accesses.len(),
{
    let n = accesses.len() as int;
    if n % 2 == 1 {
        lemma_refused_pushes_are_even(link, accesses);
    }
    if 2 * i < n - 2 {
        lemma_refused_pushes_alternate(link, accesses.take(n - 2), i);
    }
}

proof fn lemma_refused_pushes_are_even(
    link: spec_fn(usize, usize) -> bool,
    accesses: Seq<Access>,
)
    requires
        refused_pushes(link, accesses),
    ensures
        accesses.len() % 2 == 0,
    decreases accesses.len(),
{
    if accesses.len() > 0 {
        lemma_refused_pushes_are_even(link, accesses.take(accesses.len() - 2));
    }
}

/// A push is a row of tries, each a load of the head and an exchange from what was loaded to a
/// node that was linked to the top of it. All but the last are refused, because another word was
/// there. The last is refused too exactly where the push gives up, which it does not before it
/// has used up its tries; else it is the change that the push reports.
pub proof fn law_push_gives_up_only_after_every_try(
    link: spec_fn(usize, usize) -> bool,
    tries: u64,
    pushed: Option<Attempt>,
    accesses: Seq<Access>,
    i: int,
)
    requires
        pushes(link, tries, pushed, accesses),
        0 <= i < accesses.len() / 2,
    ensures
        accesses.len() % 2 == 0,
        accesses.len() <= 2 * tries,
        pushed is None ==> accesses.len() == 2 * tries,
        accesses[2 * i] matches Access::Loaded { word } && match accesses[2 * i + 1] {
            Access::Loaded { .. } => false,
            Access::Exchanged { attempt } => {
                &&& 2 * i + 2 == accesses.len()
                &&& pushed == Some(attempt)
                &&& attempt.observed == word
                &&& exists|address: usize| #[trigger]
                    link(word_address(word), address) && attempt == change_to(word, address)
            },
            Access::Refused { attempt, found } => {
                &&& pushed is Some ==> 2 * i + 2 < accesses.len()
                &&& attempt.observed == word
                &&& found != word
                &&& exists|address: usize| #[trigger]
                    link(word_address(word), address) && attempt == change_to(word, address)
            },
        },
{
    let n = accesses.len() as int;
    if pushed is None {
        lemma_refused_pushes_alternate(link, accesses, i);
    } else {
        lemma_refused_pushes_are_even(link, accesses.take(n - 2));
        if 2 * i < n - 2 {
            lemma_refused_pushes_alternate(link, accesses.take(n - 2), i);
        }
    }
}

proof fn lemma_refused_pops_alternate(
    next_of: spec_fn(usize, usize) -> bool,
    accesses: Seq<Access>,
    i: int,
)
    requires
        refused_pops(next_of, accesses),
        0 <= i < accesses.len() / 2,
    ensures
        accesses[2 * i] matches Access::Loaded { word } && (accesses[2 * i
            + 1] matches Access::Refused { attempt, found } && {
            &&& word_address(word) != 0
            &&& attempt.observed == word
            &&& found != word
            &&& exists|next: usize| #[trigger]
                next_of(word_address(word), next) && attempt == change_to(word, next)
        }),
    decreases accesses.len(),
{
    let n = accesses.len() as int;
    lemma_refused_pops_are_even(next_of, accesses);
    if 2 * i < n - 2 {
        lemma_refused_pops_alternate(next_of, accesses.take(n - 2), i);
    }
}

proof fn lemma_refused_pops_are_even(
    next_of: spec_fn(usize, usize) -> bool,
    accesses: Seq<Access>,
)
    requires
        refused_pops(next_of, accesses),
    ensures
        accesses.len() % 2 == 0,
    decreases accesses.len(),
{
    if accesses.len() > 0 {
        lemma_refused_pops_are_even(next_of, accesses.take(accesses.len() - 2));
    }
}

/// A pop is a row of tries, each a load of a head with a top node and an exchange from what was
/// loaded to what is below that node. All but the last are refused, because another word was
/// there. The last is refused too exactly where the pop gives up, which it does not before it has
/// used up its tries; it is a load alone, of a head without a top node, exactly where the pop
/// says that the stack is empty; else it is the change that the pop reports, and the reported
/// value is that of the node that was on top.
pub proof fn law_pop_gives_up_only_after_every_try<T>(
    next_of: spec_fn(usize, usize) -> bool,
    value_of: spec_fn(usize, T) -> bool,
    tries: u64,
    popped: Popped<T>,
    accesses: Seq<Access>,
    i: int,
)
    requires
        pops(next_of, value_of, tries, popped, accesses),
        0 <= i < accesses.len() / 2,
    ensures
        accesses.len() <= 2 * tries,
        popped is Contended ==> accesses.len() == 2 * tries,
        accesses.len() % 2 == 1 <==> popped is Empty,
        accesses[2 * i] matches Access::Loaded { word } && {
            &&& word_address(word) != 0
            &&& match accesses[2 * i + 1] {
                Access::Loaded { .. } => false,
                Access::Exchanged { attempt } => {
                    &&& 2 * i + 2 == accesses.len()
                    &&& popped matches Popped::Taken { value, attempt: change } && {
                        &&& change == attempt
                        &&& value_of(word_address(word), value)
                    }
                    &&& attempt.observed == word
                    &&& exists|next: usize| #[trigger]
                        next_of(word_address(word), next) && attempt == change_to(word, next)
                },
                Access::Refused { attempt, found } => {
                    &&& popped is Taken ==> 2 * i + 2 < accesses.len()
                    &&& attempt.observed == word
                    &&& found != word
                    &&& exists|next: usize| #[trigger]
                        next_of(word_address(word), next) && attempt == change_to(word, next)
                },
            }
        },
{
    let n = accesses.len() as int;
    match popped {
        Popped::Contended => {
            lemma_refused_pops_alternate(next_of, accesses, i);
            lemma_refused_pops_are_even(next_of, accesses);
        },
        Popped::Empty => {
            lemma_refused_pops_are_even(next_of, accesses.take(n - 1));
            lemma_refused_pops_alternate(next_of, accesses.take(n - 1), i);
        },
        Popped::Taken { .. } => {
            lemma_refused_pops_are_even(next_of, accesses.take(n - 2));
            if 2 * i < n - 2 {
                lemma_refused_pops_alternate(next_of, accesses.take(n - 2), i);
            }
        },
    }
}

/// A pop says that the stack is empty only after it has loaded a head without a top node, as the
/// last thing it did; and one that was given no try does nothing.
pub proof fn law_empty_pop_loaded_an_empty_head<T>(
    next_of: spec_fn(usize, usize) -> bool,
    value_of: spec_fn(usize, T) -> bool,
    tries: u64,
    popped: Popped<T>,
    accesses: Seq<Access>,
)
    requires
        pops(next_of, value_of, tries, popped, accesses),
    ensures
        tries == 0 ==> popped is Contended && accesses.len() == 0,
        popped is Empty ==> accesses.len() > 0 && (accesses.last() matches Access::Loaded { word }
            && word_address(word) == 0),
{
}

} // verus!
