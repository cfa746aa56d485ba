# p-gpt

A perpetual, on-chain microGPT (4,192 parameters, a-z names) in deterministic
Q32.32 fixed-point arithmetic, with the account layouts, instruction decoding
and training state machine of the Solana program that trains it, verified
with Verus.

- `src/` — the verified library:
  - `fixed`, `math`, `rng`: fixed-point arithmetic, exp/ln/sqrt/rsqrt, the
    xorshift64* generator;
  - `model`, `backprop`, `adam`: forward pass, sampling, backward pass and
    Adam, each against an exact specification;
  - `causality`: what the forward pass and a training step read from the
    activation workspace;
  - `instruction`, `dispatch`, `state`, `layout`: instruction data, account
    layouts and their byte images;
  - `program`, `split`, `generation`, `setup`, `lifecycle`, `pda`: the
    instructions' logic (fused and split training, name generation, setup,
    dataset loading, growth, delegation, checkpoint shards, program-derived
    addresses) and the laws that tie them together.
- `app/` — the program shell: entrypoint, account checks, sysvars and
  cross-program invocations around the library.
- `tests/` — tests of the library.
