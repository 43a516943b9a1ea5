# orangecnc

The G-code core of OrangeCNC Studio, a CNC workstation: a lexer and a modal
parser that turn G-code text into canonical machine commands, the decisions
of motion planning, and the ordering of dry-run warnings. The functions in
`src/` are verified with Verus against their contracts, with one exception:
`text::push_char`, a trusted wrapper around `String::push` (std gives Verus
no specification of it), whose contract says that the character is
appended.

Numbers are kept as decimals (`mantissa / 10^scale`) and compare by
value, so `10` and `10.0` are equal. The lexer reads
every number: mantissas stay below `10^34` with at most 30 digits after the
point; later fraction digits are dropped, and a larger integer part is
saturated. Unit conversion is exact; an incremental position is the exact
sum whenever a mantissa within `10^37` can hold it, and is otherwise rounded,
halves upward, to as many digits after the point as fit.

Layout:

- `src/decimal.rs` exact decimals: sums, rounding, text.
- `src/text.rs` characters, trimming, line splitting.
- `src/domain.rs` planes, units, modes, points, canonical commands.
- `src/lexer.rs` one line of G-code into words and comments.
- `src/words.rs` the words of a line grouped by address letter.
- `src/modal.rs` the modal state.
- `src/parser.rs` the modal parser.
- `src/motion.rs` which commands become lines or arcs, plane frames.
- `src/report.rs` warnings sorted and without repeats.
- `src/laws.rs`, `src/lex_laws.rs` laws of the parser and the lexer.
- `app/` the desktop application: egui user interface, file dialogs, and
  the floating-point geometry (arc tessellation, lengths, machine limits,
  simulation statistics).
- `tests/` tests of the library.
