# poker_analyse

Tournament poker analytics with a verified core.

`src/` is a Verus library. Every function in it is proved against its contract, except
one small trusted wrapper, `text::push_char`, which calls std's `String::push` and whose
contract (the string gains that one character at its end) Verus takes on trust:

- `card`, `deck`: the 32-bit card encoding, card names, and the 52-card bitboard with its
  set operations.
- `eval`: five- and seven-card hand scores (1 = royal flush, 7462 = worst high card), with
  the score of each hand category stated as a closed formula.
- `range`: the 1326 hole-card combinations, the 169 canonical hands, the grammar of range
  strings (`AA, KK, AKs, TT+, A5s-A2s, 0.5*87s`) and the board-texture classification of
  a combo.
- `api_bridge`: splitting a hand-history file into hands and reading one hand into a record
  (amounts kept as the literal text of the numbers).
- `orchestrator`, `sim`, `audit`: streets, seat arithmetic, pot winners, showdown outcomes,
  runout dealing from the Xorshift generator, and leak labels.
- `text`: the character-level scanning the parsers share (trim, lines, words, integer and
  float literals).

`app/` is the program around it: the command line, the WebSocket server and file watcher,
and the parts whose arithmetic is floating point (weighted ranges, Monte Carlo equity,
EV, ICM, the chip-counting state machine and the session audit).

`tests/` exercises the library from outside.
