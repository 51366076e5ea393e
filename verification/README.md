# watchtower

The verified core of the Fuel network watchtower, written in Verus.

The watchtower runs a Fuel node that first syncs from a GraphQL sentry and then
follows the blocks that the block producer posts to Ethereum as blobs. This crate
holds the logic of that pipeline, with contracts that Verus proves:

- `downloader::download_queue`: how many layer-one blocks are requested at once,
  how each answer is handled, and which blocks are released, strictly in order.
- `downloader::bundle_buffer` and `downloader::bundle_laws`: reassembly of bundles
  from their blobs, whatever order the blobs arrive in.
- `downloader::block_buffer` and `downloader`: which blobs a layer-one block
  points at, which of the beacon's blobs match, and how completed bundles become
  compressed Fuel blocks emitted at consecutive heights.
- `block_syncer`: the ranges fetched from the GraphQL node, the handling of
  compression data, and how a block from the data-availability layer is imported.
- `client_ext`: who produced a block.
- `cli`: the downloader settings a run command yields.
- `external`: the trusted declarations of the outside crates' types and calls.

`app/` holds the program around it: the command line, the services, the network
and database work, and the loops that drive the verified state machines.
