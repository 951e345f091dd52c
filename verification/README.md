# collatz_probe

A verified core for two experiments with the Collatz map:

* a *probe* that trains an autoencoder to see Collatz steps as turns of a circle, and
* a *virtual chip* that walks an orbit on the unit circle.

The library under `src/` is verified with Verus. It computes everything that is exact: binary
digits, orbits, training data, batches, rankings, the text of the report. What is computed in
floating point is written down as formulas (`expr`), with a meaning in exact arithmetic
(`semantics`) and a shape discipline (`shapes`); the laws of the formulas are proved in `circle`,
`model_laws` and `loss_bounds`.

The program under `app/` evaluates the formulas with candle, trains the model, writes the report
and prints the chip's ticks. `app` trains the probe; `app emulator` runs the chip.
