# net_tools

The decision logic of two small network services, verified with Verus, and the
programs around it.

- **Load balancer.** Backends are placed on a consistent-hashing ring, a hundred
  points each. A client belongs to the next point after its own hash; dead
  backends are passed over, as if they were not there. When a backend joins or
  leaves, dies or recovers, only its own clients move.
- **Mail record checker.** Reads domains, one per line, and reports in CSV
  whether each has MX hosts, an SPF record and a DMARC record, with the errors
  of the lookups that failed.

## Layout

| Path                | What it holds                                                   |
|---------------------|-----------------------------------------------------------------|
| `src/text.rs`       | trimming, joining and comparing text                            |
| `src/hashing.rs`    | the 32-bit hash of keys                                         |
| `src/ring.rs`       | the ring: its construction, the search on it, its laws          |
| `src/headers.rs`    | what header maps hold; the calls into the `http` crate          |
| `src/forwarding.rs` | the headers that go to a backend; by what address a client is known |
| `src/server.rs`     | backends, the requests sent to them, the replies to clients     |
| `src/balancer.rs`   | the search for a live backend and the health checks, step by step |
| `src/stability.rs`  | which clients move when backends come and go, die and recover   |
| `src/domain.rs`     | what the lookups for a domain say                               |
| `src/report.rs`     | the CSV report                                                  |
| `app/`              | sockets, DNS, clocks, arguments and output                      |
| `tests/`            | tests of the library                                            |

The functions named `law_...` are proofs of what holds of the library as a whole.

## Use

`net_tools balance` listens on port 8000 and spreads requests over three local
backends. `net_tools` by itself checks the domains that it reads from standard
input:

| Flag                  | Description                                | Default  |
|-----------------------|--------------------------------------------|----------|
| `--output`, `-o`      | Output CSV file                            | (stdout) |
| `--concurrency`, `-c` | Number of concurrent workers               | `10`     |
| `--timeout`, `-t`     | Timeout for DNS lookups (e.g. `5s`, `1m`)  | `10s`    |
