# Order auction

A three-phase order auction. The library is written in Verus: its contracts are proved.

1. Orders arrive and are batched (`intake`). Solvers bid for the orders of a batch.
2. When the time for bids is up, the best valid bid of each order becomes a commitment
   (`auction`, `selection`). The best bid is the one that promises the highest output.
3. When deadline and grace period of a commitment have passed, it is settled
   (`settlement`): the solver's claim in the `escrow` fills the order; without one the
   order goes to the next best bidder, or is given up.

Every step is appended to the `chain_log`. `order_state` holds orders, bids and
commitments; `ports`, `broadcast` and `wire` decide what is done with messages and
connections; `solver` is the other side. `rate` computes with conversion rates, which are
doubles, on integers. `laws` states what holds of the whole.

`app/` is the program around the library: TCP, JSON, the command line and the tick.

    order_auction sequencer --tick 2
    order_auction solver --id s1
