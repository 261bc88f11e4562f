# bitbybit

A computer built from transistors, with a proof of what it does.

The library models the SAP-2 ("Simple As Possible 2") computer at the level of
single PMOS and NMOS switches: gates are made of transistors, multiplexers,
decoders, latches and adders of gates, registers and memories of latches, and
the computer of all of these. Signals have three values (High, Low, floating),
shared wires can short-circuit, and a latch refuses a floating input; the
contracts cover all of it.

Every component implements `hardware::Component`. Its contract states, for
every state and every row of input signals, what it drives onto its outputs,
what it remembers afterwards, and which error it reports.

| Module       | What it holds                                                   |
|--------------|-----------------------------------------------------------------|
| `hardware`   | signals, the component interface, transistors, wires and buses   |
| `utils`      | numbers as rows of bits                                          |
| `gates`      | NOT, NAND, NOR, AND, OR, XOR, XNOR                               |
| `mux`        | multiplexers                                                     |
| `decoder`    | 2-to-4 and 4-to-16 decoders                                      |
| `latches`    | SR and D latches, flip-flops, the ring counter                   |
| `arithmetic` | adders, flag detectors, the ALUs of the SAP-1 and the SAP-2      |
| `alu_sap2`   | a smaller SAP-2 ALU without increment and decrement              |
| `memory`     | registers and ports                                              |
| `ram`        | the 256-bit chip and the 64 KiB array                            |
| `counters`   | program counters, stack pointer, memory address register         |
| `control`    | instruction decoder, control unit, sequencer                     |
| `machine`    | the SAP-2 as a mathematical state machine, one clock level at a time |
| `isa`        | what whole instructions do, and that the machine does it         |
| `cpu_sap2`   | the computer itself                                              |
| `assembler`  | mnemonic text to program bytes                                   |

The public proof functions named `law_...` state what holds of several parts
together: that an adder adds, that exactly one chip of the memory is selected,
that a memory gives back what was written, that no two sources ever drive a
bus, that the micro-program of every opcode performs its instruction as
`isa::execute` states it, that a pop gives back what was pushed, that a
subroutine returns to its caller, and that a run of the computer performs the
instructions of its program.

`app/` is a command line that assembles a program file and runs it.
