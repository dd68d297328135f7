# zippo

A stateless router that zaps one token into the liquidity of a constant-product
pool, unzaps liquidity into one token, and forwards liquidity into staking or
bonding contracts.

The library in `src/` is verified with Verus; `app/` is the alkane around it.

* `wide` — 256- and 512-bit integers. The arithmetic is `ruint`'s, behind small
  trusted functions; everything on top of them is proved.
* `amm_logic` — the pool mathematics: swap output, optimal split, the inverse zap
  and the inverse unzap, the deposit plan and the predicted mint. Each function
  is total over 128-bit inputs, and its contract says what it returns and when it
  refuses.
* `bytes`, `types`, `transfers` — encoding, values, lists of token amounts.
* `protocol`, `pool`, `zap`, `zap_in`, `zap_out` — the operations. The router never
  calls another contract itself: a step asks the host for one call and goes on
  with the reply (`Zap::start`, `Zap::resume`).
* `amm_laws`, `closeness`, `round_trip`, `conservation`, `runs`, `honest_pool` — what
  holds of the whole: the product of the reserves never shrinks, a round trip
  never gains and loses no more than the fees of its two swaps and a few rounded
  units, little is left over after a zap, the inverses come close, no token is lost on
  the way, the pool is read once and before any token moves, the caller's limits
  are kept, and a liquidity target is never undershot.

The host (`app/`) turns opcodes into messages, performs the calls that the steps
ask for, and turns a refusal into an error, which reverts the transaction.
