# macvm

The middle of a compiler for a Smalltalk-like virtual machine, written and verified in Verus: from
decoded bytecode to intermediate code with registers and stack maps. Every function carries a
contract that says what it returns. Two things are left open there: the order in which facts about
loops are listed, and which of several descriptors with one code offset a lookup finds.

A compilation sees a snapshot of the running system (`world`): methods with their decoded bytecode,
classes, and the profile of every send site.

| Step | Modules |
| --- | --- |
| the intermediate representation | `ir` |
| what a send compiles to | `classify`, `fconst` |
| operand stack depths | `depths`, `effect` |
| the state of a translation and its single steps | `translator`, `ops` |
| splicing callees and closures | `splice`, `graft` |
| the method itself | `root`, `instr`, `convert` |
| passes over the result | `passes`, `copyprop`, `boxes`, `promote`, `splice_promote`, `reach`, `reduce` |
| block order, live ranges, registers | `order`, `flow`, `intervals`, `regalloc` |
| stack maps | `nmethod`, `oopmap` |
| deoptimization metadata | `leb`, `loc`, `osr`, `scopes` |

Properties that span functions are public proof functions whose names begin with `law_`:

- nothing in a converted method dangles; in a method as translated each fail block serves one
  operation, unboxed doubles have registers of their own, and returns stand last (`laws`; the
  proofs are in `sound` and `apart` and the modules whose names begin with these, and in `kinds`,
  `endings`, `typed` and `typed_trees`);
- bytecode whose depths agree and whose instructions find their operands translates, as long as
  what is spliced into it is straight-line code (`translates`, `progress`);
- each instruction moves the simulated stack as far as the depth accounting says (`effect`);
- the passes take every translated method whose counters fit, and leave no box that nothing needs
  (`laws`, `total`, `tidy`, `renaming`);
- renaming operands keeps every value, removed copies are unread, and the passes over boxes keep
  every value up to boxing (`values`, `unboxed`, `unboxed_passes`, `copies`);
- reachable blocks come first, and without loops every jump goes forward (`order`, `flow`);
- ranges cover every use and every definition, values that live at the same time never share a
  register, what crosses a safepoint is in the frame, and nothing else goes there without need
  (`intervals`, `regalloc`);
- stack maps name only slots that hold objects, and what deoptimization needs is found in the frame
  (`oopmap`, `loc`, `laws`);
- what is written to metadata is read back (`leb`, `loc`, `osr`, `scopes`).

`app` holds what reads the process's environment.
