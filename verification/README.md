# o1zkvm

Takes an o1js (Pickles) proof and checks it inside the SP1 zkVM. The heart of it is
multi-scalar multiplication on the Pasta curves by Pippenger's bucket method, over
point operations that cost one precompile call each inside the zkVM.

- `src/` is the verified library.
  - `limbs`, `digits`: limbs, and the signed digits of scalars.
  - `ops`: point operations on canonical limbs, and the record of the calls to them.
  - `pippenger`: the bucket method over any implementation of the point operations.
  - `runs`, `cost`: what the bucket method calls them on, and how often.
  - `group`, `correctness`: why the bucket method computes a weighted sum.
  - `curve`, `pasta`: the curves, their points on Montgomery and on canonical limbs.
  - `field`, `chord`, `conic`: why the points of a curve form a commutative group.
  - `primality`, `certificates`: why the orders of the base fields are prime.
  - `fermat`, `cubes`: why no point lies on the `x` axis.
  - `msm`: multi-scalar multiplication on Vesta and Pallas, and its laws.
  - `text`, `settings`: how a proving run is set up from texts.
  - `report`, `stages`: the cycle report, and the stages of the guest's work.
- `app/` is the program around it: the host's driver, the guest, and the point
  operations by precompile.
- `tests/` runs the library against the curve crates.

The curves are those of `ark-vesta` and `ark-pallas`: the registry has no release of the
`mina-curves` crate, and the two have the same fields, equation and `ark-ec` types.
