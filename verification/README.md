# toipe

A typing test in the terminal. The library in `src/` holds the logic of a
test, verified with Verus: how each key changes the typed input and the
counts, what the screen shows at the cursor, how the shown window of words
moves, how a finished test is counted and marked, and the line format of the
history of past tests. `app/` is the program around it: options, word lists,
the terminal, the clock and the history file.
