# bevy_sequence

Sequencing of fragment trees for Bevy, with its logic verified by Verus.

- `src/` is the verified library:
  - `fragment.rs`: fragment identity and per-fragment bookkeeping
    (`FragmentState`) with the transitions that beginnings and endings make;
  - `fragment/event.rs`: event identifiers, the active-event list, stage
    events and where an event travels next;
  - `fragment/leaf.rs`: data leaves and the events they emit;
  - `combinators/save.rs`: saving a fragment hierarchy's progress under a
    name and restoring it, with the round-trip laws;
  - `combinators/select.rs`: choosing exactly one child;
  - `combinators/delay.rs`: systems that run after a delay;
  - `schedule.rs`: adding a set of systems to a schedule only once.
- `app/` is the Bevy glue: components, resources, messages, observers and
  systems that read the `World`, call the library and write back.
- `tests/` runs the library on concrete values.
