# lowbit_quants

Packed low-bit weight formats with dot and matrix kernels, verified with Verus.

- `src/` is the verified library. `k_quants_q2_0` and `k_quants_q1_0_g128` hold
  the two block formats, `q8_0` the activation blocks, `kernel` the dot and
  matrix kernels, `quants` the mathematical model, `binary16` and `binary32` the
  number patterns, `arith` the interface to rounding arithmetic, `ieee` and
  `narrowing` what the laws ask of it, `accuracy` what rounding and quantising do
  to a dot product, `dtype` and `error` the registered types and the errors.
- `app/` offers the formats on native floating-point numbers.
- `tests/` runs the library with native arithmetic.

Public proof functions whose names begin with `law_` state what holds of the
library as a whole.
