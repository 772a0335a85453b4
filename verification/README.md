# regalloc2

A backtracking register allocator for code in static single assignment form, verified with Verus.

`run::run` takes a function and a machine. It builds live ranges, merges them into bundles, gives
bundles registers in the order of their priority, evicts, splits and spills where registers are
short, gives spilled bundles slots in the stack frame, and returns the location of every operand
and the moves to insert.

## Layout

`src/` is the library; everything in it is verified.

| Modules | What they hold |
| --- | --- |
| `index`, `reg`, `func`, `table`, `cfg` | numbers, registers and operands, the function that is read, facts about its blocks |
| `code_range`, `bitvec`, `queue`, `lists`, `small`, `sort`, `requirement`, `data` | the data structures |
| `graph`, `live`, `setup`, `liveness`, `fixup`, `hot` | live ranges and their mentions |
| `bundles`, `merge`, `props` | bundles of live ranges |
| `assign`, `probe`, `points`, `split`, `process` | the search for registers |
| `spill` | spilled bundles and the stack frame |
| `halfmove`, `apply`, `moves`, `resolve` | locations of operands, and moves |
| `run` | the allocator as a whole |
| `tree`, `dom`, `flow`, `spans`, `handed`, `reached`, `uses`, `held`, `served`, `reserved` | what the scan over the blocks finds, and where it keeps it |
| `order`, `parts`, `minimal`, `place`, `settle`, `slots`, `locate`, `operands`, `meets`, `undo` | what the allocator promises of locations, and why it holds |
| `carry`, `groups`, `carried`, `copies`, `copied`, `fixed` | what the edits do with values, and why |

Each step is specified by a function from its state to its state, and the code is proved to compute
it. On top of that stand the laws:

- the live ranges of a register, of a bundle and of a spill set do not reach into each other;
- every live range ends up in a location that meets what its mentions demand;
- two live ranges that reach into each other are in different registers or in different words of the
  stack frame;
- the search changes neither where a register is live nor what uses it has;
- in a function in static single assignment form every operand of a block that can be reached, but
  for inputs that outputs reuse, comes out where it demands to be, and in no function does such an
  operand come out elsewhere;
- a function in static single assignment form is not refused as not being in it;
- an output that reuses an input is where that input is read, and the copies before the instruction
  bring the value of the input there and leave the other inputs as they are;
- of several demands for given registers that one register meets at one point all but the first are
  met by copies, which come from where the register is and go to registers that nothing else is in;
- a register that an instruction overwrites holds nothing that is live in it;
- a split around all mentions of a bundle falls before instructions and ends in minimal bundles;
- the hot code is that of the inner loops;
- moves that are done one at a time do what they were to do in parallel;
- a register that a block uses, or that is live after it, is live at its start, unless the block
  defines it or takes it as a parameter;
- a register that is live at the start of a block has a location there and at the end of each block
  before it, and so have block parameters and the registers that branches read for them;
- where no class offers a scratch register and no operand demands one, the edits bring a value along:
  within a block from one live range of a register to the next one, over an edge for a register that
  is live at the start of the block after it and comes into that block from outside, and from a
  register that a branch reads to the block parameter that it alone is handed to and that is not live
  into its own block; they overwrite no such register that stays where it is.

`small` is the boundary to the `smallvec` crate: its functions are trusted to do what they state.

`app/` logs the state and the results of the allocator. `tests/` run it on whole functions and look
at every operand.
