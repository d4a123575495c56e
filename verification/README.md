# prism_runtime

A functional reactive programming runtime in the style of Reflex, written in
Verus: every function of the library is verified against its contract.

A `Runtime` owns the reactive graph. Events are the push side: an external
event is triggered, and derived events (`filter_map`, `leftmost`, `combine`,
`tag`, `switch_hold`) fire in the same *occurrence*, lowest height first.
Behaviors are the pull side: constants, held values of events, and pure
functions of other behaviors, computed when queried. A `Dynamic` pairs an
event with the behavior that holds its last value.

User functions are named by number and interpreted by a *dispatcher*: a pure
closure `Fn(usize, &Vec<AnyValue>) -> Option<AnyValue>` that is handed to
`Runtime::propagate` and to queries. Values travel through the graph as
`AnyValue`s; `Value<T>` is a value known to have the Rust type `T`.

## Layout

- `src/value.rs`: the value system (`AnyValue`, `Value<T>`, `ValueType`).
- `src/function.rs`: the functions the graph applies, and the dispatcher.
- `src/subscriber_list.rs`: weak subscriber lists and their consolidation.
- `src/runtime.rs`: the graph, its well-formedness, subscribing, heights and
  the value of behaviors.
- `src/propagation.rs`: scheduling and running an occurrence.
- `src/event.rs`, `src/behavior.rs`, `src/dynamic.rs`: the public handles
  and their combinators.
- `src/slots.rs`, `src/any.rs`: named values and type-erased handles.
- `src/script.rs`, `src/backend.rs`: test scripts and the backend that runs
  them.
- `app/`: printing traced firings through `log`, error types that display
  themselves, and the filtering example.

## What is proved

Besides the contract of each function, among others (where each is stated):

- a trigger can be scheduled only while it is not already scheduled and no
  propagation runs (the `requires` of `Runtime::schedule_trigger`, which
  `is_scheduled` and `is_propagating` let a caller test), and again after a
  propagation (`propagate` clears every flag);
- after a successful propagation, every live listener of a triggered
  external event has heard the triggered value (`propagate`), and a listener
  keeps listening from one propagation to the next (`lemma_keeps_listens`);
- after a successful propagation, a live listener of an event filtered or
  tagged from a triggered external event, or switched onto it, has heard
  what that event makes of the triggered value, when it makes one; a tagging
  event reads its behavior as it was before the occurrence (`propagate`,
  under `derived_setup`). Building `filter_map`, `tag` or `tag_map` and then
  `trace` on the new event establishes the subscription that setup needs
  (`Runtime::hears`, in the contracts of those functions);
- a listener that stopped listening hears nothing more, and logs only grow
  (`lemma_keeps_logs`);
- a constant keeps its value, and mapped, joined and computed behaviors
  always equal their function of their inputs (`lemma_stored_value`,
  `lemma_map_value`, `lemma_map2_value`, `lemma_join_value`,
  `lemma_computation_value`; a join follows its inner behavior one join
  less deep);
- the firing a leftmost event keeps is that of its lowest input, and a
  combined event that saw both sides holds both: these are stated of the
  spec functions `pick_winner` and `merge_pending` that the runtime applies
  (`lemma_pick_winner_lowest`, `lemma_pick_winner_order`,
  `lemma_merge_both`), not of what `propagate` delivers;
- a held behavior whose external event fired with a value holds that value
  once the propagation is over, and one whose external event did not fire
  keeps its value; a switching event whose external outer event fired with
  an event follows that event once the propagation is over (`propagate`,
  under `hold_setup`, `hold_still` and `switch_setup`);
- a propagation started outside another one, on a graph where every event is
  above what it listens to (which building the graph keeps), succeeds; it
  keeps that property when the graph has no switching event (`propagate`);
- running a script runs its steps in order, propagating after each step that
  triggers an event at once, and stops at the first step that fails
  (`TestBackend::main_loop`).
