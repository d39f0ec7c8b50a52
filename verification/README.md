# cs_projects

Verified solutions to four small programming projects, written in Verus.

- `src/guessing.rs` — the number guessing game: a `Player` that knows a
  secret number and answers questions, and two strategies (`Part1`: ask
  every number in turn; `Part2`: binary search), proved to return the secret
  and to ask an exact / logarithmic number of questions.
- `src/fast_vec.rs` — `FastVec<T>`, a growable vector with an explicit
  capacity that doubles when a push finds it full (an empty buffer grows to one slot); the buffer of slots is held and moved explicitly.
- `src/chatbot.rs` — the decisions of the chatbots: one session per user,
  the file a session is saved in, the history a user sees, the text sent back
  for an answer or an error.
- `src/board.rs`, `src/tic_tac_toe_3x3.rs`, `src/tic_tac_toe_5x5.rs` — the
  tic-tac-toe board (with walls) and two agents: full-tree minimax, and
  iterative-deepening alpha-beta search with a static evaluation, run against
  a deadline. The search results are proved equal to the game values they
  stand for.
- `src/clock.rs` — the trusted calls into `std::time` the timed search uses.
- `app/` — what talks to the outside world: the chatbots driving a Llama model
  through `kalosm` and reading and writing session files, and printing a
  `FastVec`.
- `tests/` — tests on concrete values, including comparisons of both agents
  with an independent game-tree search.
