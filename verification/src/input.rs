//! Named actions bound to keys, mouse buttons and the wheel.
//!
//! An action is bound to a chord: a list of inputs of which all but the last
//! have to be held while the last one is pressed, released, held or turned.
//! Times are counted in microseconds.

use crate::seqs::{first_index, lemma_first_index, lemma_first_index_is, lemma_first_index_none};
use vstd::prelude::*;

verus! {

/// When a bound action is reported.
#[derive(Clone, Copy, Debug, PartialEq, Eq, Hash, PartialOrd, Ord, Structural)]
pub enum Notify {
    /// Never.
    Silent,
    /// When the last input of the chord goes down.
    OnPress,
    /// In every tick in which the whole chord is held.
    OnActive,
    /// When the last input of the chord goes up.
    OnRelease,
}

impl Default for Notify {
    fn default() -> (r: Self)
        ensures
            r == Notify::Silent,
    {
        Notify::Silent
    }
}

/// Whether an input is held, and for how long it has been.
#[derive(Clone, Copy, Debug, PartialEq, Eq, Hash, PartialOrd, Ord, Structural)]
pub struct KeyState {
    pub pressed: bool,
    /// Microseconds since the input went down, counted while it is held.
    pub time: u64,
}

impl Default for KeyState {
    fn default() -> (r: Self)
        ensures
            r == (KeyState { pressed: false, time: 0 }),
    {
        KeyState { pressed: false, time: 0 }
    }
}

impl KeyState {
    /// The state after a change of the input: pressing starts the count anew,
    /// releasing keeps the time that was counted.
    pub open spec fn changed(self, pressed: bool) -> KeyState {
        if pressed {
            KeyState { pressed: true, time: 0 }
        } else {
            KeyState { pressed: false, time: self.time }
        }
    }

    /// The state after a tick of `delta` microseconds: a held input counts
    /// them, up to the largest time that can be held.
    pub open spec fn ticked(self, delta: u64) -> KeyState {
        if self.pressed {
            KeyState {
                pressed: true,
                time: if self.time + delta > u64::MAX {
                    u64::MAX
                } else {
                    (self.time + delta) as u64
                },
            }
        } else {
            self
        }
    }

    pub fn change_state(&mut self, pressed: bool)
        ensures
            *final(self) == old(self).changed(pressed),
    {
        if pressed {
            self.time = 0;
            self.pressed = true;
        } else {
            self.pressed = false;
        }
    }

    pub fn process(&mut self, delta_time: u64)
        ensures
            *final(self) == old(self).ticked(delta_time),
    {
        if self.pressed {
            self.time = if self.time > u64::MAX - delta_time {
                u64::MAX
            } else {
                self.time + delta_time
            };
        }
    }

    /// The time for which the input has been held, in microseconds.
    pub fn get_delta_time(&self) -> (r: u64)
        ensures
            r == self.time,
    {
        self.time
    }
}

/// An input that takes part in a chord.
#[derive(Clone, Copy, Debug, PartialEq, Eq, Hash, Structural)]
pub enum InputAction {
    /// A key, by the engine's key code.
    Key(u32),
    /// A mouse button, by number.
    Mouse(u32),
    /// The mouse wheel.
    Scroll,
}

/// The report of a bound action.
#[derive(Clone, Copy, Debug, PartialEq, Eq, Structural)]
pub struct InputEvent {
    /// The name of the action.
    pub name: u32,
    /// For a chord that ends in a key or a button: the microseconds for which
    /// its last input has been held. For a chord that ends in the wheel: the
    /// amount by which it was turned, as the caller gave it.
    pub value: u64,
}

/// A change of a key or a mouse button.
#[derive(Clone, Copy, Debug, PartialEq, Eq, Structural)]
pub struct ButtonChange {
    pub action: InputAction,
    pub pressed: bool,
}

/// An action and the chord to which it is bound.
#[derive(Clone, Debug, PartialEq, Eq)]
pub struct Binding {
    pub name: u32,
    pub chord: Vec<InputAction>,
    pub notify: Notify,
}

/// A binding as a mathematical value.
pub struct BindingView {
    pub name: u32,
    pub chord: Seq<InputAction>,
    pub notify: Notify,
}

impl View for Binding {
    type V = BindingView;

    open spec fn view(&self) -> BindingView {
        BindingView { name: self.name, chord: self.chord@, notify: self.notify }
    }
}

/// An input that some chord names: its state, and the actions that were bound
/// to chords with it.
#[derive(Clone, Debug, PartialEq, Eq)]
pub struct Input {
    pub action: InputAction,
    pub state: KeyState,
    pub names: Vec<u32>,
}

/// An input as a mathematical value.
pub struct InputView {
    pub action: InputAction,
    pub state: KeyState,
    pub names: Seq<u32>,
}

impl View for Input {
    type V = InputView;

    open spec fn view(&self) -> InputView {
        InputView { action: self.action, state: self.state, names: self.names@ }
    }
}

/// The bindings of a set of actions, and the states of their inputs.
#[derive(Clone, Debug, PartialEq, Eq)]
pub struct ButtonControl {
    bindings: Vec<Binding>,
    inputs: Vec<Input>,
}

/// The bindings and the inputs as a mathematical value, each list in the
/// order in which its entries were added.
pub struct ButtonControlView {
    pub bindings: Seq<BindingView>,
    pub inputs: Seq<InputView>,
}

impl View for ButtonControl {
    type V = ButtonControlView;

    closed spec fn view(&self) -> ButtonControlView {
        ButtonControlView {
            bindings: self.bindings@.map_values(|binding: Binding| binding@),
            inputs: self.inputs@.map_values(|input: Input| input@),
        }
    }
}

/// The names of the bindings, in order.
pub open spec fn binding_names(bindings: Seq<BindingView>) -> Seq<u32> {
    bindings.map_values(|binding: BindingView| binding.name)
}

/// The inputs of the entries, in order.
pub open spec fn input_actions(inputs: Seq<InputView>) -> Seq<InputAction> {
    inputs.map_values(|input: InputView| input.action)
}

/// The place of the binding of an action.
pub open spec fn binding_at(bindings: Seq<BindingView>, name: u32) -> Option<int> {
    first_index(binding_names(bindings), name)
}

/// The place of the entry of an input.
pub open spec fn input_at(inputs: Seq<InputView>, action: InputAction) -> Option<int> {
    first_index(input_actions(inputs), action)
}

/// The state of an input, if some chord names it.
pub open spec fn state_of(inputs: Seq<InputView>, action: InputAction) -> Option<KeyState> {
    match input_at(inputs, action) {
        Some(i) => Some(inputs[i].state),
        None => None,
    }
}

/// An optional place as a mathematical value.
pub open spec fn slot(place: Option<usize>) -> Option<int> {
    match place {
        Some(i) => Some(i as int),
        None => None,
    }
}

/// The inputs after `name` was bound to a chord with `action`: the input
/// gets an entry if it had none, and the entry lists the name.
pub open spec fn with_user(inputs: Seq<InputView>, action: InputAction, name: u32) -> Seq<
    InputView,
> {
    match input_at(inputs, action) {
        None => inputs.push(
            InputView { action, state: KeyState { pressed: false, time: 0 }, names: seq![name] },
        ),
        Some(i) => if inputs[i].names.contains(name) {
            inputs
        } else {
            inputs.update(i, InputView { names: inputs[i].names.push(name), ..inputs[i] })
        },
    }
}

/// The inputs after `name` was bound to the chord.
pub open spec fn with_users(inputs: Seq<InputView>, chord: Seq<InputAction>, name: u32) -> Seq<
    InputView,
>
    decreases chord.len(),
{
    if chord.len() == 0 {
        inputs
    } else {
        with_user(with_users(inputs, chord.drop_last(), name), chord.last(), name)
    }
}

/// The bindings after one was added: it takes the place of the binding of
/// the same name, or the last place.
pub open spec fn with_binding(bindings: Seq<BindingView>, binding: BindingView) -> Seq<
    BindingView,
> {
    match binding_at(bindings, binding.name) {
        Some(i) => bindings.update(i, binding),
        None => bindings.push(binding),
    }
}

/// The control after `name` was bound to the chord.
pub open spec fn added(
    control: ButtonControlView,
    name: u32,
    chord: Seq<InputAction>,
    notify: Notify,
) -> ButtonControlView {
    ButtonControlView {
        bindings: with_binding(control.bindings, BindingView { name, chord, notify }),
        inputs: with_users(control.inputs, chord, name),
    }
}

/// The names without `name`.
pub open spec fn without(names: Seq<u32>, name: u32) -> Seq<u32>
    decreases names.len(),
{
    if names.len() == 0 {
        Seq::empty()
    } else if names.last() == name {
        without(names.drop_last(), name)
    } else {
        without(names.drop_last(), name).push(names.last())
    }
}

/// The inputs after the entry at place `i` lost the name: an entry that
/// lists no name any more is dropped, and its state with it.
pub open spec fn without_user(inputs: Seq<InputView>, i: int, name: u32) -> Seq<InputView> {
    let names = without(inputs[i].names, name);
    if names.len() == 0 {
        inputs.remove(i)
    } else {
        inputs.update(i, InputView { names, ..inputs[i] })
    }
}

/// The inputs after the members of the chord lost the name, one after the
/// other, and whether all of them had an entry. The first member without an
/// entry ends the work.
pub open spec fn released(inputs: Seq<InputView>, chord: Seq<InputAction>, name: u32) -> (
    Seq<InputView>,
    bool,
)
    decreases chord.len(),
{
    if chord.len() == 0 {
        (inputs, true)
    } else {
        let (before, complete) = released(inputs, chord.drop_last(), name);
        if !complete {
            (before, false)
        } else {
            match input_at(before, chord.last()) {
                None => (before, false),
                Some(i) => (without_user(before, i, name), true),
            }
        }
    }
}

/// The control after the binding of `name` was removed. Where a member of
/// its chord has no entry (a chord that names an input twice), the binding
/// stays, without the entries of the members before that one.
pub open spec fn removed(control: ButtonControlView, name: u32) -> ButtonControlView {
    match binding_at(control.bindings, name) {
        None => control,
        Some(b) => {
            let (inputs, complete) = released(control.inputs, control.bindings[b].chord, name);
            ButtonControlView {
                bindings: if complete {
                    control.bindings.remove(b)
                } else {
                    control.bindings
                },
                inputs,
            }
        },
    }
}

/// The inputs after a tick of `delta` microseconds.
pub open spec fn ticked_inputs(inputs: Seq<InputView>, delta: u64) -> Seq<InputView> {
    inputs.map_values(|input: InputView| InputView { state: input.state.ticked(delta), ..input })
}

/// The reports of a held chord, from its member `k` on: the members are gone
/// through in order; one that is not held ends the chord; each member that
/// equals the last one reports the time for which it has been held. A member
/// without an entry is passed over.
pub open spec fn held_events(inputs: Seq<InputView>, binding: BindingView, k: int) -> Seq<
    InputEvent,
>
    decreases binding.chord.len() - k,
{
    if k < 0 || k >= binding.chord.len() {
        Seq::empty()
    } else {
        let action = binding.chord[k];
        match state_of(inputs, action) {
            None => held_events(inputs, binding, k + 1),
            Some(state) => if !state.pressed {
                Seq::empty()
            } else if action != binding.chord.last() {
                held_events(inputs, binding, k + 1)
            } else {
                seq![InputEvent { name: binding.name, value: state.time }] + held_events(
                    inputs,
                    binding,
                    k + 1,
                )
            },
        }
    }
}

/// The reports of the first `upto` bindings that are reported while held.
pub open spec fn active_events(inputs: Seq<InputView>, bindings: Seq<BindingView>, upto: nat) -> Seq<
    InputEvent,
>
    decreases upto,
{
    if upto == 0 {
        Seq::empty()
    } else {
        let front = active_events(inputs, bindings, (upto - 1) as nat);
        if bindings[upto - 1].notify == Notify::OnActive {
            front + held_events(inputs, bindings[upto - 1], 0)
        } else {
            front
        }
    }
}

/// The report of a chord whose last input went down or up, from its member
/// `k` on: the members before the last one have to be held; then a press is
/// reported with time zero, for a binding that reports presses, and a release
/// with the time for which the input had been held, for one that reports
/// releases.
pub open spec fn chord_events(
    inputs: Seq<InputView>,
    binding: BindingView,
    pressed: bool,
    k: int,
) -> Seq<InputEvent>
    decreases binding.chord.len() - k,
{
    if k < 0 || k >= binding.chord.len() {
        Seq::empty()
    } else {
        let action = binding.chord[k];
        match state_of(inputs, action) {
            None => chord_events(inputs, binding, pressed, k + 1),
            Some(state) => if action == binding.chord.last() {
                if pressed && binding.notify == Notify::OnPress {
                    seq![InputEvent { name: binding.name, value: 0 }]
                } else if !pressed && binding.notify == Notify::OnRelease {
                    seq![InputEvent { name: binding.name, value: state.time }]
                } else {
                    Seq::empty()
                }
            } else if !state.pressed {
                Seq::empty()
            } else {
                chord_events(inputs, binding, pressed, k + 1)
            },
        }
    }
}

/// The report of the action `name` when the input `current` went down or up:
/// none unless the chord of the action ends in that input.
pub open spec fn button_events_for(
    control: ButtonControlView,
    name: u32,
    current: InputAction,
    pressed: bool,
) -> Seq<InputEvent> {
    match binding_at(control.bindings, name) {
        None => Seq::empty(),
        Some(b) => {
            let binding = control.bindings[b];
            if binding.chord.len() == 0 || binding.chord.last() != current {
                Seq::empty()
            } else {
                chord_events(control.inputs, binding, pressed, 0)
            }
        },
    }
}

/// The reports of the actions `names`, in order.
pub open spec fn button_events(
    control: ButtonControlView,
    names: Seq<u32>,
    current: InputAction,
    pressed: bool,
) -> Seq<InputEvent>
    decreases names.len(),
{
    if names.len() == 0 {
        Seq::empty()
    } else {
        button_events(control, names.drop_last(), current, pressed) + button_events_for(
            control,
            names.last(),
            current,
            pressed,
        )
    }
}

/// The reports when the input `current` went down or up: those of the
/// actions that its entry lists.
pub open spec fn action_events(control: ButtonControlView, current: InputAction, pressed: bool) -> Seq<
    InputEvent,
> {
    match input_at(control.inputs, current) {
        None => Seq::empty(),
        Some(i) => button_events(control, control.inputs[i].names, current, pressed),
    }
}

/// The control after an input went down or up. An input that no chord names
/// is not followed.
pub open spec fn after_change(control: ButtonControlView, change: ButtonChange) -> ButtonControlView {
    match input_at(control.inputs, change.action) {
        None => control,
        Some(i) => ButtonControlView {
            inputs: control.inputs.update(
                i,
                InputView { state: control.inputs[i].state.changed(change.pressed), ..control.inputs[i] },
            ),
            ..control
        },
    }
}

/// The control after the changes, one after the other.
pub open spec fn after_changes(control: ButtonControlView, changes: Seq<ButtonChange>) -> ButtonControlView
    decreases changes.len(),
{
    if changes.len() == 0 {
        control
    } else {
        after_change(after_changes(control, changes.drop_last()), changes.last())
    }
}

/// The reports of the changes, one after the other: each change is taken
/// in, then reported.
pub open spec fn change_events(control: ButtonControlView, changes: Seq<ButtonChange>) -> Seq<
    InputEvent,
>
    decreases changes.len(),
{
    if changes.len() == 0 {
        Seq::empty()
    } else {
        change_events(control, changes.drop_last()) + action_events(
            after_changes(control, changes),
            changes.last().action,
            changes.last().pressed,
        )
    }
}

/// The reports of a chord when the wheel was turned, from its member `k` on:
/// the members that differ from the last one have to be held; each member
/// that equals the last one reports the turn.
pub open spec fn wheel_chord(inputs: Seq<InputView>, binding: BindingView, value: u64, k: int) -> Seq<
    InputEvent,
>
    decreases binding.chord.len() - k,
{
    if k < 0 || k >= binding.chord.len() {
        Seq::empty()
    } else {
        let action = binding.chord[k];
        if action != binding.chord.last() {
            match state_of(inputs, action) {
                None => wheel_chord(inputs, binding, value, k + 1),
                Some(state) => if !state.pressed {
                    Seq::empty()
                } else {
                    wheel_chord(inputs, binding, value, k + 1)
                },
            }
        } else {
            seq![InputEvent { name: binding.name, value }] + wheel_chord(
                inputs,
                binding,
                value,
                k + 1,
            )
        }
    }
}

/// The reports of the actions `names` when the wheel was turned.
pub open spec fn wheel_names(control: ButtonControlView, names: Seq<u32>, value: u64) -> Seq<
    InputEvent,
>
    decreases names.len(),
{
    if names.len() == 0 {
        Seq::empty()
    } else {
        let front = wheel_names(control, names.drop_last(), value);
        match binding_at(control.bindings, names.last()) {
            None => front,
            Some(b) => front + wheel_chord(control.inputs, control.bindings[b], value, 0),
        }
    }
}

/// The reports of the turns of the wheel, one after the other.
pub open spec fn wheel_events(control: ButtonControlView, values: Seq<u64>) -> Seq<InputEvent>
    decreases values.len(),
{
    if values.len() == 0 {
        Seq::empty()
    } else {
        let front = wheel_events(control, values.drop_last());
        match input_at(control.inputs, InputAction::Scroll) {
            None => front,
            Some(i) => front + wheel_names(control, control.inputs[i].names, values.last()),
        }
    }
}

/// A change of a key, as the engine reports it.
#[derive(Clone, Copy, Debug, PartialEq, Eq)]
pub struct KeyboardInput {
    /// The key code, where the engine knows the key.
    pub key_code: Option<u32>,
    pub pressed: bool,
}

/// A change of a mouse button, as the engine reports it.
#[derive(Clone, Copy, Debug, PartialEq, Eq, Structural)]
pub struct MouseButtonInput {
    pub button: u32,
    pub pressed: bool,
}

/// The changes of inputs that the key events stand for: an event without a
/// key code stands for none.
pub open spec fn key_changes(events: Seq<KeyboardInput>) -> Seq<ButtonChange>
    decreases events.len(),
{
    if events.len() == 0 {
        Seq::empty()
    } else {
        let front = key_changes(events.drop_last());
        match events.last().key_code {
            Some(code) => front.push(
                ButtonChange { action: InputAction::Key(code), pressed: events.last().pressed },
            ),
            None => front,
        }
    }
}

/// The changes of inputs that the button events stand for.
pub open spec fn mouse_changes(events: Seq<MouseButtonInput>) -> Seq<ButtonChange> {
    events.map_values(
        |event: MouseButtonInput|
            ButtonChange { action: InputAction::Mouse(event.button), pressed: event.pressed },
    )
}

fn contains_name(names: &Vec<u32>, name: u32) -> (r: bool)
    ensures
        r == names@.contains(name),
{
    let mut i: usize = 0;
    while i < names.len()
        invariant
            0 <= i <= names.len(),
            forall|j: int| 0 <= j < i ==> names@[j] != name,
        decreases names.len() - i,
    {
        if names[i] == name {
            return true;
        }
        i += 1;
    }
    false
}

fn names_without(names: &Vec<u32>, name: u32) -> (r: Vec<u32>)
    ensures
        r@ == without(names@, name),
{
    let mut r: Vec<u32> = Vec::new();
    let mut i: usize = 0;
    while i < names.len()
        invariant
            0 <= i <= names.len(),
            r@ == without(names@.take(i as int), name),
        decreases names.len() - i,
    {
        proof {
            assert(names@.take(i + 1).drop_last() =~= names@.take(i as int));
            assert(names@.take(i + 1).last() == names@[i as int]);
        }
        if names[i] != name {
            r.push(names[i]);
        }
        i += 1;
    }
    assert(names@.take(i as int) =~= names@);
    r
}

impl Default for ButtonControl {
    fn default() -> (r: Self)
        ensures
            r@.bindings.len() == 0,
            r@.inputs.len() == 0,
    {
        ButtonControl::new()
    }
}

impl ButtonControl {
    /// A control without bindings.
    pub fn new() -> (r: Self)
        ensures
            r@.bindings.len() == 0,
            r@.inputs.len() == 0,
    {
        ButtonControl { bindings: Vec::new(), inputs: Vec::new() }
    }

    fn find_binding(&self, name: u32) -> (r: Option<usize>)
        ensures
            slot(r) == binding_at(self@.bindings, name),
            r is Some ==> r->Some_0 < self.bindings.len(),
    {
        let ghost names = binding_names(self@.bindings);
        let mut i: usize = 0;
        while i < self.bindings.len()
            invariant
                0 <= i <= self.bindings.len(),
                names == binding_names(self@.bindings),
                forall|j: int| 0 <= j < i ==> names[j] != name,
            decreases self.bindings.len() - i,
        {
            if self.bindings[i].name == name {
                proof {
                    assert(names[i as int] == name);
                    lemma_first_index_is(names, name, i as int);
                }
                return Some(i);
            }
            i += 1;
        }
        proof {
            lemma_first_index_none(names, name);
        }
        None
    }

    fn find_input(&self, action: InputAction) -> (r: Option<usize>)
        ensures
            slot(r) == input_at(self@.inputs, action),
            r is Some ==> r->Some_0 < self.inputs.len(),
    {
        let ghost actions = input_actions(self@.inputs);
        let mut i: usize = 0;
        while i < self.inputs.len()
            invariant
                0 <= i <= self.inputs.len(),
                actions == input_actions(self@.inputs),
                forall|j: int| 0 <= j < i ==> actions[j] != action,
            decreases self.inputs.len() - i,
        {
            if self.inputs[i].action == action {
                proof {
                    assert(actions[i as int] == action);
                    lemma_first_index_is(actions, action, i as int);
                }
                return Some(i);
            }
            i += 1;
        }
        proof {
            lemma_first_index_none(actions, action);
        }
        None
    }

    /// The state of an input, if some chord names it.
    pub fn key_state(&self, action: InputAction) -> (r: Option<KeyState>)
        ensures
            r == state_of(self@.inputs, action),
    {
        match self.find_input(action) {
            Some(i) => Some(self.inputs[i].state),
            None => None,
        }
    }

    /// Binds an action to a key.
    pub fn add_key(&mut self, name: u32, key: u32, notify: Notify)
        ensures
            final(self)@ == added(old(self)@, name, seq![InputAction::Key(key)], notify),
    {
        self.add_action(name, InputAction::Key(key), notify);
    }

    /// Binds an action to a mouse button.
    pub fn add_mouse(&mut self, name: u32, button: u32, notify: Notify)
        ensures
            final(self)@ == added(old(self)@, name, seq![InputAction::Mouse(button)], notify),
    {
        self.add_action(name, InputAction::Mouse(button), notify);
    }

    /// Binds an action to one input.
    pub fn add_action(&mut self, name: u32, action: InputAction, notify: Notify)
        ensures
            final(self)@ == added(old(self)@, name, seq![action], notify),
    {
        let mut chord: Vec<InputAction> = Vec::new();
        chord.push(action);
        assert(chord@ =~= seq![action]);
        self.add_actions(name, chord, notify);
    }

    /// Binds an action to a chord, in place of the chord to which it was
    /// bound.
    pub fn add_actions(&mut self, name: u32, actions: Vec<InputAction>, notify: Notify)
        ensures
            final(self)@ == added(old(self)@, name, actions@, notify),
    {
        let ghost before = self@;
        let mut k: usize = 0;
        while k < actions.len()
            invariant
                0 <= k <= actions.len(),
                self@.bindings == before.bindings,
                self@.inputs == with_users(before.inputs, actions@.take(k as int), name),
            decreases actions.len() - k,
        {
            let action = actions[k];
            let ghost inputs = self@.inputs;
            proof {
                assert(actions@.take(k + 1).drop_last() =~= actions@.take(k as int));
                assert(actions@.take(k + 1).last() == action);
                lemma_first_index(input_actions(inputs), action);
            }
            match self.find_input(action) {
                None => {
                    let mut names: Vec<u32> = Vec::new();
                    names.push(name);
                    assert(names@ =~= seq![name]);
                    self.inputs.push(
                        Input { action, state: KeyState { pressed: false, time: 0 }, names },
                    );
                    assert(self@.inputs =~= with_user(inputs, action, name));
                },
                Some(i) => {
                    if !contains_name(&self.inputs[i].names, name) {
                        let mut names = self.inputs[i].names.clone();
                        names.push(name);
                        let state = self.inputs[i].state;
                        self.inputs.set(i, Input { action, state, names });
                        assert(self@.inputs =~= with_user(inputs, action, name));
                    }
                },
            }
            assert(self@.bindings =~= before.bindings);
            k += 1;
        }
        assert(actions@.take(k as int) =~= actions@);
        let ghost bindings = self@.bindings;
        let ghost inputs = self@.inputs;
        match self.find_binding(name) {
            Some(i) => {
                self.bindings.set(i, Binding { name, chord: actions, notify });
                assert(self@.bindings =~= bindings.update(
                    i as int,
                    BindingView { name, chord: actions@, notify },
                ));
            },
            None => {
                self.bindings.push(Binding { name, chord: actions, notify });
                assert(self@.bindings =~= bindings.push(
                    BindingView { name, chord: actions@, notify },
                ));
            },
        }
        assert(self@.inputs =~= inputs);
    }

    /// Removes the binding of an action.
    pub fn remove_action(&mut self, name: u32)
        ensures
            final(self)@ == removed(old(self)@, name),
    {
        let ghost before = self@;
        let place = match self.find_binding(name) {
            None => {
                return ;
            },
            Some(b) => b,
        };
        let chord = self.bindings[place].chord.clone();
        assert(chord@ == before.bindings[place as int].chord);
        let mut k: usize = 0;
        while k < chord.len()
            invariant
                0 <= k <= chord.len(),
                before == old(self)@,
                binding_at(before.bindings, name) == Some(place as int),
                chord@ == before.bindings[place as int].chord,
                self@.bindings == before.bindings,
                released(before.inputs, chord@.take(k as int), name) == (self@.inputs, true),
            decreases chord.len() - k,
        {
            let action = chord[k];
            let ghost inputs = self@.inputs;
            proof {
                assert(chord@.take(k + 1).drop_last() =~= chord@.take(k as int));
                assert(chord@.take(k + 1).last() == action);
                lemma_first_index(input_actions(inputs), action);
            }
            match self.find_input(action) {
                None => {
                    proof {
                        lemma_released_stops(before.inputs, chord@, name, k + 1);
                    }
                    return ;
                },
                Some(i) => {
                    let names = names_without(&self.inputs[i].names, name);
                    if names.len() == 0 {
                        self.inputs.remove(i);
                        assert(self@.inputs =~= without_user(inputs, i as int, name));
                    } else {
                        let state = self.inputs[i].state;
                        self.inputs.set(i, Input { action, state, names });
                        assert(self@.inputs =~= without_user(inputs, i as int, name));
                    }
                },
            }
            assert(self@.bindings =~= before.bindings);
            k += 1;
        }
        assert(chord@.take(k as int) =~= chord@);
        let ghost inputs = self@.inputs;
        self.bindings.remove(place);
        assert(self@.bindings =~= before.bindings.remove(place as int));
        assert(self@.inputs =~= inputs);
    }
}

impl ButtonControl {
    /// Appends the reports of the held chord of the binding at place `b`.
    fn scan_held(&self, b: usize, out: &mut Vec<InputEvent>)
        requires
            b < self@.bindings.len(),
        ensures
            final(out)@ == old(out)@ + held_events(self@.inputs, self@.bindings[b as int], 0),
    {
        let binding = &self.bindings[b];
        let ghost view = self@.bindings[b as int];
        let ghost inputs = self@.inputs;
        let ghost start = out@;
        assert(view == binding@);
        let n = binding.chord.len();
        let mut k: usize = 0;
        while k < n
            invariant
                0 <= k <= n,
                n == binding.chord.len(),
                view == binding@,
                view == self@.bindings[b as int],
                inputs == self@.inputs,
                start == old(out)@,
                start + held_events(inputs, view, 0) == out@ + held_events(inputs, view, k as int),
            decreases n - k,
        {
            let action = binding.chord[k];
            match self.find_input(action) {
                None => {},
                Some(i) => {
                    let state = self.inputs[i].state;
                    if !state.pressed {
                        assert(out@ + Seq::<InputEvent>::empty() =~= out@);
                        return ;
                    }
                    if action == binding.chord[n - 1] {
                        let event = InputEvent { name: binding.name, value: state.get_delta_time() };
                        let ghost so_far = out@;
                        out.push(event);
                        assert(so_far + (seq![event] + held_events(inputs, view, k + 1)) =~= out@
                            + held_events(inputs, view, k + 1));
                    }
                },
            }
            k += 1;
        }
        assert(out@ + Seq::<InputEvent>::empty() =~= out@);
    }

    /// Appends the report of the chord of the binding at place `b`, whose
    /// last input went down or up.
    fn scan_chord(&self, b: usize, pressed: bool, out: &mut Vec<InputEvent>)
        requires
            b < self@.bindings.len(),
        ensures
            final(out)@ == old(out)@ + chord_events(
                self@.inputs,
                self@.bindings[b as int],
                pressed,
                0,
            ),
    {
        let binding = &self.bindings[b];
        let ghost view = self@.bindings[b as int];
        let ghost inputs = self@.inputs;
        let ghost start = out@;
        assert(view == binding@);
        let n = binding.chord.len();
        let mut k: usize = 0;
        while k < n
            invariant
                0 <= k <= n,
                n == binding.chord.len(),
                view == binding@,
                view == self@.bindings[b as int],
                inputs == self@.inputs,
                start == old(out)@,
                out@ == start,
                chord_events(inputs, view, pressed, 0) == chord_events(
                    inputs,
                    view,
                    pressed,
                    k as int,
                ),
            decreases n - k,
        {
            let action = binding.chord[k];
            match self.find_input(action) {
                None => {},
                Some(i) => {
                    let state = self.inputs[i].state;
                    if action == binding.chord[n - 1] {
                        if pressed {
                            if binding.notify == Notify::OnPress {
                                let event = InputEvent { name: binding.name, value: 0 };
                                out.push(event);
                                assert(out@ =~= start + seq![event]);
                                return ;
                            }
                        } else if binding.notify == Notify::OnRelease {
                            let event = InputEvent {
                                name: binding.name,
                                value: state.get_delta_time(),
                            };
                            out.push(event);
                            assert(out@ =~= start + seq![event]);
                            return ;
                        }
                        assert(out@ + Seq::<InputEvent>::empty() =~= out@);
                        return ;
                    }
                    if !state.pressed {
                        assert(out@ + Seq::<InputEvent>::empty() =~= out@);
                        return ;
                    }
                },
            }
            k += 1;
        }
        assert(out@ + Seq::<InputEvent>::empty() =~= out@);
    }

    /// Appends the reports of the chord of the binding at place `b` for one
    /// turn of the wheel.
    fn scan_wheel(&self, b: usize, value: u64, out: &mut Vec<InputEvent>)
        requires
            b < self@.bindings.len(),
        ensures
            final(out)@ == old(out)@ + wheel_chord(self@.inputs, self@.bindings[b as int], value, 0),
    {
        let binding = &self.bindings[b];
        let ghost view = self@.bindings[b as int];
        let ghost inputs = self@.inputs;
        let ghost start = out@;
        assert(view == binding@);
        let n = binding.chord.len();
        let mut k: usize = 0;
        while k < n
            invariant
                0 <= k <= n,
                n == binding.chord.len(),
                view == binding@,
                view == self@.bindings[b as int],
                inputs == self@.inputs,
                start == old(out)@,
                start + wheel_chord(inputs, view, value, 0) == out@ + wheel_chord(
                    inputs,
                    view,
                    value,
                    k as int,
                ),
            decreases n - k,
        {
            let action = binding.chord[k];
            if action != binding.chord[n - 1] {
                match self.find_input(action) {
                    None => {},
                    Some(i) => {
                        if !self.inputs[i].state.pressed {
                            assert(out@ + Seq::<InputEvent>::empty() =~= out@);
                            return ;
                        }
                    },
                }
            } else {
                let event = InputEvent { name: binding.name, value };
                let ghost so_far = out@;
                out.push(event);
                assert(so_far + (seq![event] + wheel_chord(inputs, view, value, k + 1)) =~= out@
                    + wheel_chord(inputs, view, value, k + 1));
            }
            k += 1;
        }
        assert(out@ + Seq::<InputEvent>::empty() =~= out@);
    }

    /// Counts a tick of `delta_time` microseconds for the inputs that are
    /// held, and reports the actions whose chord is held and that are
    /// reported while held, in the order of their bindings.
    pub fn process_input(&mut self, delta_time: u64) -> (events: Vec<InputEvent>)
        ensures
            final(self)@.bindings == old(self)@.bindings,
            final(self)@.inputs == ticked_inputs(old(self)@.inputs, delta_time),
            events@ == active_events(
                final(self)@.inputs,
                final(self)@.bindings,
                final(self)@.bindings.len(),
            ),
    {
        let ghost before = self@;
        let mut i: usize = 0;
        while i < self.inputs.len()
            invariant
                0 <= i <= self.inputs.len(),
                self@.bindings == before.bindings,
                self@.inputs.len() == before.inputs.len(),
                forall|j: int|
                    0 <= j < i ==> self@.inputs[j] == (InputView {
                        state: before.inputs[j].state.ticked(delta_time),
                        ..before.inputs[j]
                    }),
                forall|j: int| i <= j < before.inputs.len() ==> self@.inputs[j] == before.inputs[j],
            decreases self.inputs.len() - i,
        {
            let ghost inputs = self@.inputs;
            let mut state = self.inputs[i].state;
            state.process(delta_time);
            let action = self.inputs[i].action;
            let names = self.inputs[i].names.clone();
            self.inputs.set(i, Input { action, state, names });
            assert(self@.inputs =~= inputs.update(
                i as int,
                InputView { state, ..inputs[i as int] },
            ));
            assert(self@.bindings =~= before.bindings);
            i += 1;
        }
        assert(self@.inputs =~= ticked_inputs(before.inputs, delta_time));
        let mut events: Vec<InputEvent> = Vec::new();
        let mut b: usize = 0;
        while b < self.bindings.len()
            invariant
                0 <= b <= self.bindings.len(),
                self.bindings.len() == self@.bindings.len(),
                events@ == active_events(self@.inputs, self@.bindings, b as nat),
            decreases self.bindings.len() - b,
        {
            if self.bindings[b].notify == Notify::OnActive {
                self.scan_held(b, &mut events);
            }
            b += 1;
        }
        events
    }

    /// Appends the reports for an input that went down or up.
    fn process_action(&self, current: InputAction, pressed: bool, out: &mut Vec<InputEvent>)
        ensures
            final(out)@ == old(out)@ + action_events(self@, current, pressed),
    {
        let ghost start = out@;
        match self.find_input(current) {
            None => {
                assert(out@ + Seq::<InputEvent>::empty() =~= out@);
            },
            Some(i) => {
                let names = &self.inputs[i].names;
                assert(names@ == self@.inputs[i as int].names);
                let mut t: usize = 0;
                assert(out@ + Seq::<InputEvent>::empty() =~= out@);
                while t < names.len()
                    invariant
                        0 <= t <= names.len(),
                        out@ == start + button_events(
                            self@,
                            names@.take(t as int),
                            current,
                            pressed,
                        ),
                    decreases names.len() - t,
                {
                    let ghost front = button_events(self@, names@.take(t as int), current, pressed);
                    proof {
                        assert(names@.take(t + 1).drop_last() =~= names@.take(t as int));
                        assert(names@.take(t + 1).last() == names@[t as int]);
                        lemma_first_index(binding_names(self@.bindings), names@[t as int]);
                    }
                    let ghost so_far = out@;
                    match self.find_binding(names[t]) {
                        None => {
                            assert(front + Seq::<InputEvent>::empty() =~= front);
                        },
                        Some(b) => {
                            let chord = &self.bindings[b].chord;
                            assert(chord@ == self@.bindings[b as int].chord);
                            if chord.len() == 0 || chord[chord.len() - 1] != current {
                                assert(front + Seq::<InputEvent>::empty() =~= front);
                            } else {
                                self.scan_chord(b, pressed, out);
                                assert((start + front) + chord_events(
                                    self@.inputs,
                                    self@.bindings[b as int],
                                    pressed,
                                    0,
                                ) =~= start + (front + chord_events(
                                    self@.inputs,
                                    self@.bindings[b as int],
                                    pressed,
                                    0,
                                )));
                            }
                        },
                    }
                    t += 1;
                }
                assert(names@.take(t as int) =~= names@);
            },
        }
    }

    /// Takes in the changes of inputs, one after the other, and reports each.
    fn process_changes(&mut self, changes: &Vec<ButtonChange>) -> (events: Vec<InputEvent>)
        ensures
            final(self)@ == after_changes(old(self)@, changes@),
            events@ == change_events(old(self)@, changes@),
    {
        let ghost before = self@;
        let mut events: Vec<InputEvent> = Vec::new();
        let mut c: usize = 0;
        while c < changes.len()
            invariant
                0 <= c <= changes.len(),
                self@ == after_changes(before, changes@.take(c as int)),
                events@ == change_events(before, changes@.take(c as int)),
            decreases changes.len() - c,
        {
            let change = changes[c];
            let ghost control = self@;
            proof {
                assert(changes@.take(c + 1).drop_last() =~= changes@.take(c as int));
                assert(changes@.take(c + 1).last() == change);
                lemma_first_index(input_actions(control.inputs), change.action);
            }
            match self.find_input(change.action) {
                None => {},
                Some(i) => {
                    let mut state = self.inputs[i].state;
                    state.change_state(change.pressed);
                    let action = self.inputs[i].action;
                    let names = self.inputs[i].names.clone();
                    self.inputs.set(i, Input { action, state, names });
                    assert(self@.inputs =~= control.inputs.update(
                        i as int,
                        InputView { state, ..control.inputs[i as int] },
                    ));
                    assert(self@.bindings =~= control.bindings);
                },
            }
            assert(self@ == after_change(control, change));
            self.process_action(change.action, change.pressed, &mut events);
            c += 1;
        }
        assert(changes@.take(c as int) =~= changes@);
        events
    }

    /// Takes in the key events of a tick and reports the actions whose chord
    /// ends in a key that went down or up.
    pub fn process_keyboard(&mut self, events: &Vec<KeyboardInput>) -> (reports: Vec<InputEvent>)
        ensures
            final(self)@ == after_changes(old(self)@, key_changes(events@)),
            reports@ == change_events(old(self)@, key_changes(events@)),
    {
        let mut changes: Vec<ButtonChange> = Vec::new();
        let mut i: usize = 0;
        while i < events.len()
            invariant
                0 <= i <= events.len(),
                changes@ == key_changes(events@.take(i as int)),
            decreases events.len() - i,
        {
            proof {
                assert(events@.take(i + 1).drop_last() =~= events@.take(i as int));
                assert(events@.take(i + 1).last() == events@[i as int]);
            }
            match events[i].key_code {
                Some(code) => {
                    changes.push(
                        ButtonChange { action: InputAction::Key(code), pressed: events[i].pressed },
                    );
                },
                None => {},
            }
            i += 1;
        }
        assert(events@.take(i as int) =~= events@);
        self.process_changes(&changes)
    }

    /// Takes in the mouse button events of a tick and reports the actions
    /// whose chord ends in a button that went down or up.
    pub fn process_mouse_button(&mut self, events: &Vec<MouseButtonInput>) -> (reports: Vec<
        InputEvent,
    >)
        ensures
            final(self)@ == after_changes(old(self)@, mouse_changes(events@)),
            reports@ == change_events(old(self)@, mouse_changes(events@)),
    {
        let mut changes: Vec<ButtonChange> = Vec::new();
        let mut i: usize = 0;
        while i < events.len()
            invariant
                0 <= i <= events.len(),
                changes@ == mouse_changes(events@.take(i as int)),
            decreases events.len() - i,
        {
            changes.push(
                ButtonChange {
                    action: InputAction::Mouse(events[i].button),
                    pressed: events[i].pressed,
                },
            );
            assert(changes@ =~= mouse_changes(events@.take(i + 1)));
            i += 1;
        }
        assert(events@.take(i as int) =~= events@);
        self.process_changes(&changes)
    }

    /// Reports the actions whose chord ends in the wheel, for each turn of
    /// the wheel, with the amount of the turn.
    pub fn process_mouse_wheel(&self, values: &Vec<u64>) -> (reports: Vec<InputEvent>)
        ensures
            reports@ == wheel_events(self@, values@),
    {
        let mut reports: Vec<InputEvent> = Vec::new();
        let mut v: usize = 0;
        while v < values.len()
            invariant
                0 <= v <= values.len(),
                reports@ == wheel_events(self@, values@.take(v as int)),
            decreases values.len() - v,
        {
            let ghost front = reports@;
            proof {
                assert(values@.take(v + 1).drop_last() =~= values@.take(v as int));
                assert(values@.take(v + 1).last() == values@[v as int]);
                lemma_first_index(input_actions(self@.inputs), InputAction::Scroll);
            }
            match self.find_input(InputAction::Scroll) {
                None => {},
                Some(i) => {
                    let names = &self.inputs[i].names;
                    assert(names@ == self@.inputs[i as int].names);
                    let mut t: usize = 0;
                    assert(reports@ + Seq::<InputEvent>::empty() =~= reports@);
                    while t < names.len()
                        invariant
                            0 <= t <= names.len(),
                            reports@ == front + wheel_names(
                                self@,
                                names@.take(t as int),
                                values@[v as int],
                            ),
                            0 <= v < values.len(),
                        decreases names.len() - t,
                    {
                        let ghost inner = wheel_names(self@, names@.take(t as int), values@[v as int]);
                        proof {
                            assert(names@.take(t + 1).drop_last() =~= names@.take(t as int));
                            assert(names@.take(t + 1).last() == names@[t as int]);
                            lemma_first_index(binding_names(self@.bindings), names@[t as int]);
                        }
                        match self.find_binding(names[t]) {
                            None => {},
                            Some(b) => {
                                self.scan_wheel(b, values[v], &mut reports);
                                assert((front + inner) + wheel_chord(
                                    self@.inputs,
                                    self@.bindings[b as int],
                                    values@[v as int],
                                    0,
                                ) =~= front + (inner + wheel_chord(
                                    self@.inputs,
                                    self@.bindings[b as int],
                                    values@[v as int],
                                    0,
                                )));
                            },
                        }
                        t += 1;
                    }
                    assert(names@.take(t as int) =~= names@);
                },
            }
            v += 1;
        }
        assert(values@.take(v as int) =~= values@);
        reports
    }
}

/// Once a member of a chord has no entry, the members after it are not
/// looked at.
pub proof fn lemma_released_stops(
    inputs: Seq<InputView>,
    chord: Seq<InputAction>,
    name: u32,
    k: int,
)
    requires
        0 <= k <= chord.len(),
        !released(inputs, chord.take(k), name).1,
    ensures
        released(inputs, chord, name) == released(inputs, chord.take(k), name),
    decreases chord.len() - k,
{
    if k < chord.len() {
        assert(chord.take(k + 1).drop_last() =~= chord.take(k));
        lemma_released_stops(inputs, chord, name, k + 1);
    } else {
        assert(chord.take(k) =~= chord);
    }
}

} // verus!
