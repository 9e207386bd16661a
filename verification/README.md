# dnsblk

`dnsblk` blocks DNS queries for the domains on a deny list, with a TC (traffic
control) classifier on the network interface. The classifier inspects UDP/53
packets, hashes the domain name with FNV-1a, and drops the queries whose hash is
in the deny map.

The logic is a library verified with Verus:

| module       | what it holds                                                    |
|--------------|------------------------------------------------------------------|
| `wire`       | domain names in DNS wire format, and back                        |
| `hash`       | the FNV-1a hash of a name, and the deny-map key                  |
| `packet`     | the classifier: finding the question in a frame, and the verdict |
| `event`      | the event of a blocked query, and its bytes in the ring buffer   |
| `deny`       | the deny list                                                    |
| `blocker`    | the worker, from loading the eBPF object to its end              |
| `report`     | messages and log lines                                           |
| `dedup`      | suppression of repeated reports                                  |
| `interfaces` | the interfaces to choose from, and those chosen                  |
| `session`    | the foreground process                                           |
| `blocking`   | what the parts add up to                                         |
| `text`       | strings                                                          |

Contracts are stated over sequences of characters and bytes. The functions named
`law_…` state what holds across functions; `blocking` has those on the whole, from
a line of the deny list to the line in the log.

`app/` is the program around the library: command line, signals, threads, files,
and the calls into the kernel. A build with `--cfg embedded_ebpf` embeds the eBPF
object, which has to be built first; other builds load it when they run.

`app/ebpf.rs` is the entry point of the classifier in the kernel, and is part of
builds for the BPF target alone; such a build needs the library without the
standard library, which this package does not set up.

## Command line

```
dnsblk <LIST>                        # default interface eth0
dnsblk -i <IFACE> <LIST>             # explicit interface
dnsblk --interface <IFACE> <LIST>    # long form
dnsblk --help                        # usage
```

- `<LIST>`: the deny list, one domain per line; lines that start with `#` are
  comments.
- The log level is that of the environment variable `LOG`, or `info`.
- Ctrl+C shuts the program down gracefully.

## What is recognised

- A name is compared byte for byte with the name on the list in lower case.
- Names of up to 255 bytes in wire format, the longest that DNS has, are
  recognised. An event has room for 128 bytes of a name; of a longer one the log
  shows the labels that fit.
- A question without a zero byte in its first 255 bytes holds no name; it is
  looked up by its first 128 bytes.
- A name with a byte of 0xC0 or more is taken for a compressed one, and passes.
