# ioutgt

A userspace NVMe storage target. The library under `src/` is verified with
Verus; what touches sockets, files, threads and devices is under `app/`.

| Modules | What they hold |
|---------|----------------|
| `nvme`, `controller`, `queue`, `slotq`, `pool`, `buf`, `dispatch`, `io`, `permit` | commands, controllers, queues and their slots, command execution |
| `subsystem`, `nstable`, `uuid`, `config`, `cli`, `addr` | subsystems, namespace tables, host admission, ANA groups, the backend grammar |
| `backend`, `null`, `memory`, `any`, `file`, `attached` | storage backends |
| `sheepdog` | the Sheepdog cluster protocol: wire format, control calls, volumes, the multiplexed connection |
| `rdma` | RDMA work requests, their counters, the connection listener |
| `cpuset`, `topology`, `group`, `spread`, `order`, `sets`, `affinity` | CPU sets, locality-aware grouping, NIC IRQ affinity |
| `harness` | what a target decides while it serves: ports, paths, placement, ACLs, queue threads, connections, shutdown |
| `text`, `bytes` | text and byte strings |

A part that waits for the outside is a state machine: a method says what to do
next, and another takes what came of it. `app/` performs the steps, so every
decision is made by verified code.

Laws that relate several functions are public proof functions named `lemma_*`
beside the functions they are about.
