# Chia Seeder Light

A light chia peer crawler and DNS seeder. It connects to the peers of the network, asks each
for the peers it knows, keeps a table of which ones answered, and answers DNS queries for one
domain with the addresses of those.

## Layout

`src/` is the verified library:

- `address`: socket addresses as plain integers
- `config`: limits and intervals
- `peers`: the rows of the peers table and what they say
- `records`: domain names, record sets and answers of the DNS library
- `dns`: the authority for the zone, over the peers table
- `peer`: which peers are under way, and what they are tried with
- `crawl`: which peers are connected to, and how many at a time
- `probe`: one connection to a peer
- `recheck`: the periodic rounds that try expired peers again, and when they start
- `network`: the networks that can be seeded
- `laws`: what holds of the seeder as a whole

`app/` is the program: the command line, the table on disk, sockets and tasks. `tests/` runs
the library.

## Usage

```
chia-seeder-light [OPTIONS] --domain <domain>

  -n, --network-id <network id>   Set network id [default: mainnet]
  -l, --listen-address <ip:port>  Set listen address [default: [::]:53]
  -d, --domain <domain>           Set seeder domain (eg. seeder.dexie.space.), must end with a dot
  -e, --entry-node <ip:port>      Set initial entry node, will not use DNS to find peers
```
