# staking_v2_sc

A verified model of the ctzn.city staking contract for MultiversX: building
and citizen NFTs are staked, the router deposits ECITY rewards for episodes
of two weeks, and stakers claim their share of each episode.

Every endpoint is a transition on the contract's storage. It takes what the
chain tells it about the call (`CallContext`: caller, owner, block time, the
attributes of the citizen NFTs) and the payments received, and returns the
ESDT transfers to make. A failed call changes nothing and sends nothing.

Layout of `src/`:

- `amount.rs`: token amounts, natural numbers of any size.
- `structs.rs`: the NFT and payment types.
- `storage.rs`: single values, maps and insertion-ordered sets of storage.
- `common.rs`: the four token-identifier mappers, set once and validated.
- `codec.rs`: the binary encoding of citizen attributes, and its decoder.
- `utils.rs`: building kind and rarity by collection and nonce, and citizen
  attributes read from the chain.
- `context.rs`: what a call is told by the chain and what it asks to send.
- `contract.rs`: the reward rules and the endpoints, each with a spec
  function of what it does.
- `laws.rs`: properties that span several endpoints.

`app/` converts between the framework's managed values and the plain values
that the library works on.
