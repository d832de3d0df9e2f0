# perfmon_dash

The rules behind a native dashboard of system telemetry, verified with Verus,
and the program around them.

`src/` is the library. Every reading goes in as a plain value: integers, texts
and IEEE 754 numbers, which are held as their bit patterns.

| modules | what they hold |
| --- | --- |
| `number`, `rounding`, `arithmetic`, `bounds` | binary floating-point numbers: order, rounding, arithmetic, and the bounds of results |
| `cpu`, `network`, `sensors`, `pdh`, `wide` | what the kernel, the interfaces, the thermal sensors and the performance counters report |
| `formulas`, `mean`, `smoothing`, `sample`, `worker`, `cycles` | how readings become a sample, one after the other |
| `channel`, `telemetry`, `series`, `perfmon` | how samples come in, those that are kept, the curves, and the state of the dashboard |
| `theme`, `caption`, `screen`, `tiles`, `grid` | what is shown, and in which colours |

The functions that are marked `pub proof` without a name that starts with
`lemma_` state what holds of the library as a whole.

`tests/` runs the library; its arithmetic is held against that of the machine.
`app/` is the program: it reads the machine and draws.
