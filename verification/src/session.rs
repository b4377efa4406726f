use vstd::prelude::*;

verus! {

/// A key pressed during a test, as far as the test tells keys apart.
#[derive(Clone, Copy, Debug, PartialEq, Eq, Structural)]
pub enum Key {
    Backspace,
    /// A character typed without modifiers.
    Char(char),
    /// A character typed with the control key held.
    Ctrl(char),
    /// Any other key.
    Other,
}

/// The state of a typing test after a key has been handled.
#[derive(Clone, Copy, Debug, PartialEq, Eq, Structural)]
pub enum TestStatus {
    NotDone,
    Done,
    Quit,
    Restart,
}

impl TestStatus {
    /// Whether the test goes on reading keys.
    pub fn to_process_more_keys(&self) -> (b: bool)
        ensures
            b <==> (*self is NotDone),
    {
        matches!(self, TestStatus::NotDone)
    }

    /// Whether the results of the test are shown.
    pub fn to_display_results(&self) -> (b: bool)
        ensures
            b <==> (*self is Done),
    {
        matches!(self, TestStatus::Done)
    }

    /// Whether a new test is started.
    pub fn to_restart(&self) -> (b: bool)
        ensures
            b <==> (*self is Restart),
    {
        matches!(self, TestStatus::Restart)
    }
}

/// What the screen shows after a key, at the cursor.
#[derive(Clone, Copy, Debug, PartialEq, Eq, Structural)]
pub enum KeyEffect {
    /// The typed character matched the text: it is shown as correct and the
    /// cursor moves on.
    Typed(char),
    /// The typed character did not match: the expected character is shown as
    /// a mistake and the cursor moves on.
    Mistyped(char),
    /// The cursor moves back one place and the expected character there is
    /// shown as not yet typed.
    Erased(char),
}

/// The keys typed so far and the counts kept while a test runs.
pub struct TestState {
    pub input: Vec<char>,
    /// Characters typed that did not match the text when they were typed.
    pub num_errors: usize,
    /// Characters typed, including those deleted since.
    pub num_chars_typed: usize,
}

impl TestState {
    /// A state before any key.
    pub fn new() -> (s: Self)
        ensures
            s.input@ == Seq::<char>::empty(),
            s.num_errors == 0,
            s.num_chars_typed == 0,
    {
        TestState { input: Vec::new(), num_errors: 0, num_chars_typed: 0 }
    }
}

/// The input with its last word removed: characters are removed from the end
/// until the input is empty or ends with a space.
pub open spec fn delete_word(input: Seq<char>) -> Seq<char>
    decreases input.len(),
{
    if input.len() == 0 || input.last() == ' ' {
        input
    } else {
        delete_word(input.drop_last())
    }
}

/// Erasing the characters from position `from - 1` down to position `to`, in
/// that order, each shown as the text's character there.
pub open spec fn erasures(flat: Seq<char>, from: int, to: int) -> Seq<KeyEffect>
    decreases from - to,
{
    if to >= from {
        seq![]
    } else {
        erasures(flat, from, to + 1).push(erased(flat[to]))
    }
}

/// The effect of erasing the place where the text holds `c`.
pub open spec fn erased(c: char) -> KeyEffect {
    KeyEffect::Erased(c)
}

/// The effect of typing a character other than `c`, the text's character.
pub open spec fn mistyped(c: char) -> KeyEffect {
    KeyEffect::Mistyped(c)
}

/// What one key does in a test over the text `flat` of which `total` characters
/// are to be typed: the new input, error count and typed count, the status,
/// and what the screen shows.
pub open spec fn key_outcome(
    input: Seq<char>,
    errors: nat,
    typed: nat,
    key: Key,
    flat: Seq<char>,
    total: nat,
) -> (Seq<char>, nat, nat, TestStatus, Seq<KeyEffect>) {
    match key {
        Key::Ctrl('c') => (input, errors, typed, TestStatus::Quit, seq![]),
        Key::Ctrl('r') => (input, errors, typed, TestStatus::Restart, seq![]),
        Key::Ctrl('w') => {
            let rest = delete_word(input);
            (
                rest,
                errors,
                typed,
                TestStatus::NotDone,
                erasures(flat, input.len() as int, rest.len() as int),
            )
        },
        Key::Char(c) => {
            let next = input.push(c);
            if next.len() >= total {
                (next, errors, typed + 1, TestStatus::Done, seq![])
            } else if flat[next.len() - 1] == c {
                (next, errors, typed + 1, TestStatus::NotDone, seq![KeyEffect::Typed(c)])
            } else {
                (
                    next,
                    errors + 1,
                    typed + 1,
                    TestStatus::NotDone,
                    seq![mistyped(flat[next.len() - 1])],
                )
            }
        },
        Key::Backspace | Key::Ctrl('h') => {
            if input.len() > 0 {
                (
                    input.drop_last(),
                    errors,
                    typed,
                    TestStatus::NotDone,
                    seq![erased(flat[input.len() - 1])],
                )
            } else {
                (input, errors, typed, TestStatus::NotDone, seq![])
            }
        },
        _ => (input, errors, typed, TestStatus::NotDone, seq![]),
    }
}

/// Handles one key of a test over the text `flat`, of which the first
/// `total_chars` characters are to be typed. Updates the state and tells how
/// the test goes on and what the screen shows at the cursor.
pub fn process_key(key: Key, state: &mut TestState, flat: &[char], total_chars: usize) -> (res: (
    TestStatus,
    Vec<KeyEffect>,
))
    requires
        old(state).input@.len() <= total_chars <= flat@.len(),
        old(state).num_errors <= old(state).num_chars_typed < usize::MAX,
    ensures
        (final(state).input@, final(state).num_errors as nat, final(state).num_chars_typed as nat, res.0, res.1@)
            == key_outcome(
            old(state).input@,
            old(state).num_errors as nat,
            old(state).num_chars_typed as nat,
            key,
            flat@,
            total_chars as nat,
        ),
{
    let mut effects: Vec<KeyEffect> = Vec::new();
    match key {
        Key::Ctrl('c') => {
            assert(effects@ =~= seq![]);
            return (TestStatus::Quit, effects);
        },
        Key::Ctrl('r') => {
            assert(effects@ =~= seq![]);
            return (TestStatus::Restart, effects);
        },
        Key::Ctrl('w') => {
            let ghost start = state.input@;
            let ghost errors = state.num_errors;
            let ghost typed = state.num_chars_typed;
            assert(erasures(flat@, start.len() as int, start.len() as int).len() == 0);
            assert(effects@ =~= erasures(flat@, start.len() as int, start.len() as int));
            while state.input.len() > 0 && state.input[state.input.len() - 1] != ' '
                invariant
                    delete_word(state.input@) == delete_word(start),
                    state.num_errors == errors,
                    state.num_chars_typed == typed,
                    state.input@.len() <= start.len() <= flat@.len(),
                    effects@ == erasures(flat@, start.len() as int, state.input@.len() as int),
                decreases state.input@.len(),
            {
                let ghost before = state.input@;
                match state.input.pop() {
                    Some(_) => {
                        let n = state.input.len();
                        let ghost prev = effects@;
                        effects.push(KeyEffect::Erased(flat[n]));
                        assert(state.input@ =~= before.drop_last());
                        assert(n == before.len() - 1);
                        assert(effects@ == prev.push(erased(flat@[n as int])));
                        assert(effects@ =~= erasures(flat@, start.len() as int, n as int));
                    },
                    None => {},
                }
            }
            assert(delete_word(state.input@) == state.input@);
        },
        Key::Char(c) => {
            state.num_chars_typed = state.num_chars_typed + 1;
            state.input.push(c);
            if state.input.len() >= total_chars {
                assert(effects@ =~= seq![]);
                return (TestStatus::Done, effects);
            }
            let expected = flat[state.input.len() - 1];
            if expected == c {
                effects.push(KeyEffect::Typed(c));
                assert(effects@ =~= seq![KeyEffect::Typed(c)]);
            } else {
                effects.push(KeyEffect::Mistyped(expected));
                assert(effects@ =~= seq![KeyEffect::Mistyped(expected)]);
                state.num_errors = state.num_errors + 1;
            }
        },
        Key::Backspace | Key::Ctrl('h') => {
            match state.input.pop() {
                Some(_) => {
                    let n = state.input.len();
                    effects.push(KeyEffect::Erased(flat[n]));
                    assert(effects@ =~= seq![KeyEffect::Erased(flat@[n as int])]);
                },
                None => {
                    assert(effects@ =~= seq![]);
                },
            }
        },
        _ => {
            assert(effects@ =~= seq![]);
        },
    }
    (TestStatus::NotDone, effects)
}

/// The counts kept by a test stay consistent: mistakes never outnumber the
/// characters typed, the typed count grows by one exactly on a character key,
/// and the mistake count grows by at most one, only on a character key.
pub proof fn lemma_key_keeps_counts(
    input: Seq<char>,
    errors: nat,
    typed: nat,
    key: Key,
    flat: Seq<char>,
    total: nat,
)
    requires
        errors <= typed,
        input.len() <= total <= flat.len(),
    ensures
        ({
            let out = key_outcome(input, errors, typed, key, flat, total);
            &&& out.1 <= out.2
            &&& out.2 == (if key is Char {
                typed + 1
            } else {
                typed
            })
            &&& (key is Char ==> out.1 == errors || out.1 == errors + 1)
            &&& (!(key is Char) ==> out.1 == errors)
        }),
{
}

/// The input never grows past the text: a test is done exactly when a
/// character key brings the input to the length to be typed (a key typed on a
/// full input also ends it), and while it is not done after a character key,
/// the input is shorter than that length.
pub proof fn lemma_key_keeps_input_within_text(
    input: Seq<char>,
    errors: nat,
    typed: nat,
    key: Key,
    flat: Seq<char>,
    total: nat,
)
    requires
        input.len() <= total <= flat.len(),
    ensures
        ({
            let out = key_outcome(input, errors, typed, key, flat, total);
            &&& (out.0.len() <= total || (key is Char && input.len() == total && out.3 is Done))
            &&& (out.3 is Done <==> (key is Char && input.len() + 1 >= total))
            &&& (key is Char && out.3 is NotDone ==> out.0.len() < total)
        }),
{
    lemma_delete_word_shape(input, flat);
}

/// Backspace undoes a character: after a character key that does not end the
/// test, a backspace brings the input back to what it was and shows the
/// text's character at that place as not yet typed.
pub proof fn lemma_backspace_undoes_char(
    input: Seq<char>,
    errors: nat,
    typed: nat,
    c: char,
    flat: Seq<char>,
    total: nat,
)
    requires
        input.len() <= total <= flat.len(),
        key_outcome(input, errors, typed, Key::Char(c), flat, total).3 is NotDone,
    ensures
        ({
            let a = key_outcome(input, errors, typed, Key::Char(c), flat, total);
            let b = key_outcome(a.0, a.1, a.2, Key::Backspace, flat, total);
            &&& b.0 == input
            &&& b.1 == a.1
            &&& b.2 == typed + 1
            &&& b.3 is NotDone
            &&& b.4 == seq![KeyEffect::Erased(flat[input.len() as int])]
        }),
{
    let a = key_outcome(input, errors, typed, Key::Char(c), flat, total);
    assert(a.0.drop_last() =~= input);
}

/// Deleting a word keeps a prefix of the input that is empty or ends with a
/// space, and removes only characters that are not spaces; the screen erases
/// each removed character, last one first.
pub proof fn lemma_delete_word_shape(input: Seq<char>, flat: Seq<char>)
    ensures
        ({
            let rest = delete_word(input);
            &&& rest.len() <= input.len()
            &&& rest == input.subrange(0, rest.len() as int)
            &&& (rest.len() == 0 || rest.last() == ' ')
            &&& forall|i: int| rest.len() <= i < input.len() ==> input[i] != ' '
            &&& erasures(flat, input.len() as int, rest.len() as int).len() == input.len()
                - rest.len()
        }),
    decreases input.len(),
{
    if input.len() > 0 && input.last() != ' ' {
        lemma_delete_word_shape(input.drop_last(), flat);
        let rest = delete_word(input);
        assert(rest == input.drop_last().subrange(0, rest.len() as int));
        assert(rest =~= input.subrange(0, rest.len() as int));
        assert forall|i: int| rest.len() <= i < input.len() implies input[i] != ' ' by {
            if i < input.len() - 1 {
                assert(input[i] == input.drop_last()[i]);
            }
        }
    } else {
        assert(input.subrange(0, input.len() as int) =~= input);
    }
    lemma_erasures_len(flat, input.len() as int, delete_word(input).len() as int);
}

proof fn lemma_erasures_len(flat: Seq<char>, from: int, to: int)
    requires
        to <= from,
    ensures
        erasures(flat, from, to).len() == from - to,
    decreases from - to,
{
    if to < from {
        lemma_erasures_len(flat, from, to + 1);
        assert(erasures(flat, from, to) == erasures(flat, from, to + 1).push(erased(flat[to])));
    } else {
        assert(erasures(flat, from, to) == Seq::<KeyEffect>::empty());
    }
}

/// Quitting or restarting leaves the test as it was and shows nothing.
pub proof fn lemma_quit_and_restart_change_nothing(
    input: Seq<char>,
    errors: nat,
    typed: nat,
    flat: Seq<char>,
    total: nat,
)
    ensures
        ({
            let q = key_outcome(input, errors, typed, Key::Ctrl('c'), flat, total);
            let r = key_outcome(input, errors, typed, Key::Ctrl('r'), flat, total);
            &&& q == (input, errors, typed, TestStatus::Quit, Seq::<KeyEffect>::empty())
            &&& r == (input, errors, typed, TestStatus::Restart, Seq::<KeyEffect>::empty())
        }),
{
}

/// A character key always keeps the typed character: the input grows by that
/// character, also when the key ends the test, and the keystroke count grows
/// by one. The test ends exactly when the input reaches the length to be
/// typed; otherwise the character is shown as typed when it matches the text
/// at its place, and else as a mistake that shows the expected character and
/// adds one to the mistake count.
pub proof fn lemma_char_key_appends(
    input: Seq<char>,
    errors: nat,
    typed: nat,
    c: char,
    flat: Seq<char>,
    total: nat,
)
    requires
        input.len() <= total <= flat.len(),
    ensures
        ({
            let out = key_outcome(input, errors, typed, Key::Char(c), flat, total);
            &&& out.0.len() == input.len() + 1
            &&& out.0.last() == c
            &&& forall|i: int| 0 <= i < input.len() ==> #[trigger] out.0[i] == input[i]
            &&& out.2 == typed + 1
            &&& (out.3 == TestStatus::Done <==> input.len() + 1 >= total)
            &&& (out.3 != TestStatus::Done ==> out.3 == TestStatus::NotDone)
            &&& (input.len() + 1 >= total ==> out.1 == errors && out.4.len() == 0)
            &&& (input.len() + 1 < total && flat[input.len() as int] == c ==> out.1 == errors
                && out.4.len() == 1 && out.4[0] == KeyEffect::Typed(c))
            &&& (input.len() + 1 < total && flat[input.len() as int] != c ==> out.1 == errors + 1
                && out.4.len() == 1 && out.4[0] is Mistyped && out.4[0]->Mistyped_0 == flat[input.len() as int])
        }),
{
}

/// Backspace and ctrl-h remove the last typed character, if any, and show the
/// text's character at that place as not yet typed; the counts stay.
pub proof fn lemma_erase_keys_remove_last(
    input: Seq<char>,
    errors: nat,
    typed: nat,
    flat: Seq<char>,
    total: nat,
)
    requires
        input.len() <= total <= flat.len(),
    ensures
        ({
            let b = key_outcome(input, errors, typed, Key::Backspace, flat, total);
            let h = key_outcome(input, errors, typed, Key::Ctrl('h'), flat, total);
            &&& b == h
            &&& b.1 == errors && b.2 == typed && b.3 == TestStatus::NotDone
            &&& (input.len() > 0 ==> b.0.len() + 1 == input.len()
                && (forall|i: int| 0 <= i < b.0.len() ==> #[trigger] b.0[i] == input[i])
                && b.4.len() == 1 && b.4[0] is Erased && b.4[0]->Erased_0 == flat[input.len() - 1])
            &&& (input.len() == 0 ==> b.0 == input && b.4.len() == 0)
        }),
{
}

/// What happens while a test waits for keys.
#[derive(Clone, Copy, Debug, PartialEq, Eq, Structural)]
pub enum TestEvent {
    /// A key arrived.
    Pressed(Key),
    /// No key was waiting; `time_up` tells whether a timed test's time has run
    /// out.
    Idle { time_up: bool },
    /// No more keys can come.
    Disconnected,
}

/// Handles one event of a running test: a key goes to `process_key`; when no
/// key waits, a timed test whose time is up is done; when no more keys can
/// come, a timed test quits and an untimed one stops where it stands. Tells
/// the status, what the screen shows, and whether to wait for more events.
pub fn handle_event(
    event: TestEvent,
    state: &mut TestState,
    flat: &[char],
    total_chars: usize,
    timed: bool,
) -> (res: (TestStatus, Vec<KeyEffect>, bool))
    requires
        old(state).input@.len() <= total_chars <= flat@.len(),
        old(state).num_errors <= old(state).num_chars_typed < usize::MAX,
    ensures
        match event {
            TestEvent::Pressed(key) => {
                &&& (
                    final(state).input@,
                    final(state).num_errors as nat,
                    final(state).num_chars_typed as nat,
                    res.0,
                    res.1@,
                ) == key_outcome(
                    old(state).input@,
                    old(state).num_errors as nat,
                    old(state).num_chars_typed as nat,
                    key,
                    flat@,
                    total_chars as nat,
                )
                &&& res.2 == (res.0 is NotDone)
            },
            TestEvent::Idle { time_up } => {
                &&& *final(state) == *old(state)
                &&& res.1@.len() == 0
                &&& res.0 == (if time_up {
                    TestStatus::Done
                } else {
                    TestStatus::NotDone
                })
                &&& res.2 == !time_up
            },
            TestEvent::Disconnected => {
                &&& *final(state) == *old(state)
                &&& res.1@.len() == 0
                &&& res.0 == (if timed {
                    TestStatus::Quit
                } else {
                    TestStatus::NotDone
                })
                &&& !res.2
            },
        },
{
    match event {
        TestEvent::Pressed(key) => {
            let (status, effects) = process_key(key, state, flat, total_chars);
            let more = status.to_process_more_keys();
            (status, effects, more)
        },
        TestEvent::Idle { time_up } => {
            if time_up {
                (TestStatus::Done, Vec::new(), false)
            } else {
                (TestStatus::NotDone, Vec::new(), true)
            }
        },
        TestEvent::Disconnected => {
            if timed {
                (TestStatus::Quit, Vec::new(), false)
            } else {
                (TestStatus::NotDone, Vec::new(), false)
            }
        },
    }
}

} // verus!
