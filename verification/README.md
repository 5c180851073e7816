# blob_sync

Downloads one blob from many nodes at once. All nodes are asked for their latency and for the
size of the blob; then the best of them get a block of chunks each, and whenever a download
ends, the best free node gets the next block. Chunks of a download that fails are handed out
again. Near the end, a download that is much slower than a free node is killed.

`src/` decides, and is verified with Verus. It does no I/O: times are numbers of nanoseconds,
nodes are numbered in the order of their ids, and measured rates are handed in.

- `chunks`: sets of chunks, held by a `bao_tree::ChunkRanges`; counting and claiming chunks
- `quality`: the order of the nodes
- `stats`: what is known of a node
- `bitfield`: a line of characters that shows which part of the blob came from a node
- `target`: the bytes received, and the chunks missing
- `survey`: what the answers of the nodes settle
- `downloader`: the state of all downloads, and its steps
- `run`: what holds of a whole run: at no time is a missing chunk left out or in two downloads,
  there are never more downloads than allowed, none is of more than a block, and once no
  download is running, the bytes are those of the blob and each chunk counts for one node

`app/` talks to the nodes with `iroh` and `iroh-blobs`, measures time, and prints.
